use vstd::prelude::*;
use crate::geometry::Rect;

verus! {

/// The column of a room's center.
pub open spec fn center_x(room: Rect) -> int {
    room.midpoint().x as int
}

/// `sorted` with `room` put behind the last room whose center is not to the
/// right of its own.
pub open spec fn insert_by_center(sorted: Seq<Rect>, room: Rect) -> Seq<Rect>
    decreases sorted.len(),
{
    if sorted.len() == 0 {
        seq![room]
    } else if center_x(sorted.last()) <= center_x(room) {
        sorted.push(room)
    } else {
        insert_by_center(sorted.drop_last(), room).push(sorted.last())
    }
}

/// The rooms in ascending order of their centers' columns; rooms whose
/// centers share a column keep the order they had.
pub open spec fn sorted_by_center(rooms: Seq<Rect>) -> Seq<Rect>
    decreases rooms.len(),
{
    if rooms.len() == 0 {
        Seq::empty()
    } else {
        insert_by_center(sorted_by_center(rooms.drop_last()), rooms.last())
    }
}

/// Whether the centers' columns never decrease along `rooms`.
pub open spec fn ascending(rooms: Seq<Rect>) -> bool {
    forall|i: int, j: int|
        0 <= i < j < rooms.len() ==> center_x(#[trigger] rooms[i]) <= center_x(#[trigger] rooms[j])
}

/// Where `room` goes: behind position `at`, with all later rooms to its right.
proof fn lemma_insert_at(sorted: Seq<Rect>, room: Rect, at: int)
    requires
        0 <= at <= sorted.len(),
        at > 0 ==> center_x(sorted[at - 1]) <= center_x(room),
        forall|k: int| at <= k < sorted.len() ==> center_x(#[trigger] sorted[k]) > center_x(room),
    ensures
        insert_by_center(sorted, room) == sorted.insert(at, room),
    decreases sorted.len() - at,
{
    if at == sorted.len() {
        assert(sorted.insert(at, room) =~= sorted.push(room));
        if sorted.len() == 0 {
            assert(sorted.push(room) =~= seq![room]);
        }
    } else {
        assert(center_x(sorted[sorted.len() - 1]) > center_x(room));
        lemma_insert_at(sorted.drop_last(), room, at);
        assert(sorted.drop_last().insert(at, room).push(sorted.last()) =~= sorted.insert(at, room));
    }
}

/// Inserting adds the room and keeps the others, and keeps an ascending
/// sequence ascending.
pub proof fn lemma_insert_by_center(sorted: Seq<Rect>, room: Rect)
    ensures
        insert_by_center(sorted, room).len() == sorted.len() + 1,
        forall|r: Rect|
            insert_by_center(sorted, room).contains(r) <==> (sorted.contains(r) || r == room),
        ascending(sorted) ==> ascending(insert_by_center(sorted, room)),
    decreases sorted.len(),
{
    broadcast use vstd::seq_lib::group_seq_properties;

    let out = insert_by_center(sorted, room);
    if sorted.len() == 0 {
        assert(out[0] == room);
    } else if center_x(sorted.last()) <= center_x(room) {
        if ascending(sorted) {
            assert forall|i: int, j: int| 0 <= i < j < out.len() implies center_x(
                #[trigger] out[i],
            ) <= center_x(#[trigger] out[j]) by {
                if j == sorted.len() {
                    assert(out[i] == sorted[i]);
                    if i < sorted.len() - 1 {
                        assert(center_x(sorted[i]) <= center_x(sorted[sorted.len() - 1]));
                    }
                } else {
                    assert(out[i] == sorted[i] && out[j] == sorted[j]);
                }
            }
        }
    } else {
        let front = sorted.drop_last();
        let inner = insert_by_center(front, room);
        lemma_insert_by_center(front, room);
        assert(sorted =~= front.push(sorted.last()));
        assert forall|r: Rect| out.contains(r) <==> (sorted.contains(r) || r == room) by {
            assert(out.contains(r) <==> (inner.contains(r) || r == sorted.last()));
            assert(sorted.contains(r) <==> (front.contains(r) || r == sorted.last()));
        }
        if ascending(sorted) {
            assert forall|i: int, j: int| 0 <= i < j < front.len() implies center_x(
                #[trigger] front[i],
            ) <= center_x(#[trigger] front[j]) by {
                assert(front[i] == sorted[i] && front[j] == sorted[j]);
            }
            assert forall|i: int, j: int| 0 <= i < j < out.len() implies center_x(
                #[trigger] out[i],
            ) <= center_x(#[trigger] out[j]) by {
                if j == inner.len() {
                    assert(out[i] == inner[i]);
                    assert(inner.contains(inner[i]));
                    if inner[i] != room {
                        assert(front.contains(inner[i]));
                        let k = choose|k: int| 0 <= k < front.len() && front[k] == inner[i];
                        assert(sorted[k] == inner[i]);
                        assert(center_x(sorted[k]) <= center_x(sorted[sorted.len() - 1]));
                    }
                } else {
                    assert(out[i] == inner[i] && out[j] == inner[j]);
                }
            }
        }
    }
}

/// Sorting by center keeps the number of rooms and the rooms themselves, and
/// puts them in ascending order.
pub proof fn lemma_sorted_by_center(rooms: Seq<Rect>)
    ensures
        sorted_by_center(rooms).len() == rooms.len(),
        forall|r: Rect| sorted_by_center(rooms).contains(r) <==> rooms.contains(r),
        ascending(sorted_by_center(rooms)),
    decreases rooms.len(),
{
    broadcast use vstd::seq_lib::group_seq_properties;

    if rooms.len() > 0 {
        let front = rooms.drop_last();
        lemma_sorted_by_center(front);
        lemma_insert_by_center(sorted_by_center(front), rooms.last());
        assert(rooms =~= front.push(rooms.last()));
        assert forall|r: Rect| sorted_by_center(rooms).contains(r) <==> rooms.contains(r) by {
            assert(rooms.contains(r) <==> (front.contains(r) || r == rooms.last()));
        }
    }
}

/// A copy of `rooms` in ascending order of the centers' columns, rooms with
/// centers in one column in the order they had.
pub fn sort_by_center(rooms: &Vec<Rect>) -> (sorted: Vec<Rect>)
    requires
        forall|i: int| 0 <= i < rooms@.len() ==> (#[trigger] rooms@[i]).has_center(),
    ensures
        sorted@ == sorted_by_center(rooms@),
{
    let mut sorted: Vec<Rect> = Vec::new();
    let mut i: usize = 0;
    assert(rooms@.take(0) =~= Seq::<Rect>::empty());
    while i < rooms.len()
        invariant
            i <= rooms.len(),
            forall|k: int| 0 <= k < rooms@.len() ==> (#[trigger] rooms@[k]).has_center(),
            forall|k: int| 0 <= k < sorted@.len() ==> (#[trigger] sorted@[k]).has_center(),
            sorted@.len() == i,
            sorted@ == sorted_by_center(rooms@.take(i as int)),
        decreases rooms.len() - i,
    {
        let room = rooms[i];
        let key = room.center().x;
        let mut at: usize = sorted.len();
        while at > 0 && sorted[at - 1].center().x > key
            invariant
                at <= sorted.len(),
                key == center_x(room),
                forall|k: int| 0 <= k < sorted@.len() ==> (#[trigger] sorted@[k]).has_center(),
                forall|k: int| at <= k < sorted@.len() ==> center_x(#[trigger] sorted@[k]) > key,
            decreases at,
        {
            at = at - 1;
        }
        proof {
            lemma_insert_at(sorted@, room, at as int);
            assert(rooms@.take(i + 1).drop_last() =~= rooms@.take(i as int));
        }
        sorted.insert(at, room);
        i = i + 1;
    }
    assert(rooms@.take(rooms@.len() as int) =~= rooms@);
    sorted
}

} // verus!
