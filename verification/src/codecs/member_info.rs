//! What a member advertises of itself.
//!
//! Begin; a frame with the UUID (17 bytes) and the lite flag (1 byte); the address; an empty
//! attribute map; the version (begin, `[major, minor, patch]`, end); an empty address map; end.

use vstd::prelude::*;
use super::address;
use super::address::address_frames;
use super::layout::{begin_frame, begin_view, bool_byte, end_frame, end_view};
use crate::bytes::{i64_le, lemma_ints_read_back, lemma_le_digits_len, put_i64};
use crate::model::views;
use crate::protocol::fixed::{uuid_at, uuid_bytes};
use crate::protocol::frame::{Frame, FrameView};

verus! {

/// A member: UUID, host, port, lite flag, version.
pub type Member = ((i64, i64), String, i32, bool, (u8, u8, u8));

/// What a [`Member`] holds.
pub type MemberView = ((i64, i64), Seq<char>, i32, bool, (u8, u8, u8));

pub open spec fn member_frames(
    uuid: (i64, i64),
    host: Seq<char>,
    port: i32,
    lite: bool,
    version: (u8, u8, u8),
) -> Seq<FrameView> {
    seq![
        begin_view(),
        FrameView { flags: 0, content: uuid_bytes(Some(uuid)).push(bool_byte(lite)) },
    ] + address_frames(host, port) + seq![
        begin_view(),
        end_view(),
        begin_view(),
        FrameView { flags: 0, content: seq![version.0, version.1, version.2] },
        end_view(),
        begin_view(),
        end_view(),
        end_view(),
    ]
}

/// The frames of members one after the other.
pub open spec fn members_frames(ms: Seq<MemberView>) -> Seq<FrameView>
    decreases ms.len(),
{
    if ms.len() == 0 {
        Seq::empty()
    } else {
        let m = ms.last();
        members_frames(ms.drop_last()) + member_frames(m.0, m.1, m.2, m.3, m.4)
    }
}

/// Encodes one member. `uuid` is `(msb, lsb)`; `version` is `(major, minor, patch)`.
pub fn encode(
    out: &mut Vec<Frame>,
    uuid: (i64, i64),
    host: &str,
    port: i32,
    lite: bool,
    version: (u8, u8, u8),
)
    ensures
        views(final(out)@) == views(old(out)@) + member_frames(uuid, host@, port, lite, version),
{
    let ghost before = views(out@);
    out.push(begin_frame());
    let mut content: Vec<u8> = Vec::new();
    content.push(0);
    put_i64(&mut content, uuid.0);
    put_i64(&mut content, uuid.1);
    content.push(
        if lite {
            1
        } else {
            0
        },
    );
    assert(content@ =~= uuid_bytes(Some(uuid)).push(bool_byte(lite)));
    out.push(Frame { flags: 0, content });
    let ghost head = seq![
        begin_view(),
        FrameView { flags: 0, content: uuid_bytes(Some(uuid)).push(bool_byte(lite)) },
    ];
    assert(views(out@) =~= before + head);
    address::encode(out, host, port);
    let ghost with_address = views(out@);
    out.push(begin_frame());
    out.push(end_frame());
    out.push(begin_frame());
    let mut v: Vec<u8> = Vec::new();
    v.push(version.0);
    v.push(version.1);
    v.push(version.2);
    assert(v@ =~= seq![version.0, version.1, version.2]);
    out.push(Frame { flags: 0, content: v });
    out.push(end_frame());
    out.push(begin_frame());
    out.push(end_frame());
    out.push(end_frame());
    assert(views(out@) =~= with_address + seq![
        begin_view(),
        end_view(),
        begin_view(),
        FrameView { flags: 0, content: seq![version.0, version.1, version.2] },
        end_view(),
        begin_view(),
        end_view(),
        end_view(),
    ]);
    assert(views(out@) =~= before + member_frames(uuid, host@, port, lite, version));
}

/// Encodes a list of members: begin, the members, end.
pub fn encode_list(out: &mut Vec<Frame>, members: &[Member])
    ensures
        views(final(out)@) == views(old(out)@) + (seq![begin_view()] + members_frames(
            views(members@),
        ) + seq![end_view()]),
{
    let ghost before = views(out@);
    let ghost ms = views(members@);
    out.push(begin_frame());
    let ghost head = before + seq![begin_view()];
    assert(views(out@) =~= head + members_frames(ms.take(0)));
    let mut i: usize = 0;
    while i < members.len()
        invariant
            i <= members@.len(),
            ms == views(members@),
            views(out@) =~= head + members_frames(ms.take(i as int)),
        decreases members@.len() - i,
    {
        let m = &members[i];
        encode(out, m.0, m.1.as_str(), m.2, m.3, m.4);
        proof {
            let next = ms.take(i + 1);
            assert(next.drop_last() =~= ms.take(i as int));
            assert(next.last() == members@[i as int]@);
        }
        i = i + 1;
    }
    assert(ms.take(i as int) =~= ms);
    let ghost so_far = views(out@);
    out.push(end_frame());
    assert(views(out@) =~= so_far.push(end_view()));
    assert(views(out@) =~= before + (seq![begin_view()] + members_frames(ms) + seq![end_view()]));
}

/// What a member advertises is read back from its frames: the UUID and the lite flag from the second,
/// the address behind it, the version from the tenth.
pub proof fn law_members_read_back(
    uuid: (i64, i64),
    host: Seq<char>,
    port: i32,
    lite: bool,
    version: (u8, u8, u8),
)
    ensures
        ({
            let fs = member_frames(uuid, host, port, lite, version);
            &&& fs.len() == 14
            &&& uuid_at(fs[1].content, 0) == Some(uuid)
            &&& fs[1].content.len() == 18 && fs[1].content[17] == (if lite {
                1u8
            } else {
                0u8
            })
            &&& fs.subrange(2, 6) == address_frames(host, port)
            &&& fs[9].content == seq![version.0, version.1, version.2]
        }),
{
    broadcast use lemma_le_digits_len;

    let fs = member_frames(uuid, host, port, lite, version);
    let c = fs[1].content;
    lemma_ints_read_back(0, 0, 0, 0, uuid.0);
    lemma_ints_read_back(0, 0, 0, 0, uuid.1);
    assert(c.subrange(1, 9) =~= i64_le(uuid.0));
    assert(c.subrange(9, 17) =~= i64_le(uuid.1));
    assert(fs.subrange(2, 6) =~= address_frames(host, port));
}

proof fn lemma_joined_parts(a: Seq<FrameView>, b: Seq<FrameView>, from: int, to: int)
    ensures
        (a + b).subrange(a.len() as int, (a.len() + b.len()) as int) == b,
        0 <= from <= to <= a.len() ==> (a + b).subrange(from, to) == a.subrange(from, to),
{
    assert((a + b).subrange(a.len() as int, (a.len() + b.len()) as int) =~= b);
    if 0 <= from <= to <= a.len() {
        assert((a + b).subrange(from, to) =~= a.subrange(from, to));
    }
}

/// Members stand in order, fourteen frames each.
pub proof fn law_members_stand_in_order(ms: Seq<MemberView>, i: int)
    requires
        0 <= i < ms.len(),
    ensures
        members_frames(ms).len() == 14 * ms.len(),
        members_frames(ms).subrange(14 * i, 14 * i + 14) == member_frames(
            ms[i].0,
            ms[i].1,
            ms[i].2,
            ms[i].3,
            ms[i].4,
        ),
    decreases ms.len(),
{
    let m = ms.last();
    let init = ms.drop_last();
    law_members_read_back(m.0, m.1, m.2, m.3, m.4);
    lemma_joined_parts(
        members_frames(init),
        member_frames(m.0, m.1, m.2, m.3, m.4),
        14 * i,
        14 * i + 14,
    );
    if init.len() > 0 {
        law_members_stand_in_order(init, 0);
    }
    if i < init.len() {
        law_members_stand_in_order(init, i);
        assert(init[i] == ms[i]);
    }
}

} // verus!
