//! The path reconstructor and the annotator: from the optimizer's table to the
//! chosen line ends, and from those to the text with a marker at each.

use vstd::prelude::*;
use vstd::std_specs::iter::IteratorSpec;
use vstd::string::StringExecFns;
use crate::lines::scanner::Breakpoint;
use crate::lines::segment::byte_length;

verus! {

/// What is put into the text where a line may be broken: a soft hyphen, as
/// HTML writes it.
pub const MARKER: &'static str = "&shy;";

/// The characters of the marker.
pub open spec fn marker() -> Seq<char> {
    seq!['&', 's', 'h', 'y', ';']
}

/// The entry before entry `i` on the way that the table records: where the
/// predecessor of `i` points, if it points to an earlier entry.
pub open spec fn link(table: Seq<Breakpoint>, i: int) -> Option<int> {
    if 0 <= i < table.len() {
        match table[i].predecessor {
            Some(p) => if p < i {
                Some(p as int)
            } else {
                None
            },
            None => None,
        }
    } else {
        None
    }
}

/// The positions of the entries on the way to entry `i`, in ascending order,
/// without the entry that the way starts from and without `i` itself.
pub open spec fn breaks_on_way(table: Seq<Breakpoint>, i: int) -> Seq<usize>
    decreases i,
{
    match link(table, i) {
        Some(p) => match link(table, p) {
            Some(_) => breaks_on_way(table, p).push(table[p].position),
            None => Seq::empty(),
        },
        None => Seq::empty(),
    }
}

/// The positions of the line ends that the table has chosen: those on the way
/// to its last entry.
pub open spec fn chosen_positions(table: Seq<Breakpoint>) -> Seq<usize> {
    breaks_on_way(table, table.len() - 1)
}

/// But for the first, the entries of the table stand in strictly ascending
/// order of position.
pub open spec fn ascending_positions(table: Seq<Breakpoint>) -> bool {
    forall|i: int, j: int|
        1 <= i < j < table.len() ==> (#[trigger] table[i]).position < (#[trigger] table[j]).position
}

/// `positions` are strictly ascending.
pub open spec fn strictly_ascending(positions: Seq<usize>) -> bool {
    forall|i: int, j: int| 0 <= i < j < positions.len() ==> positions[i] < positions[j]
}

/// `positions` never fall, and none lies beyond `limit`.
pub open spec fn ascending_within(positions: Seq<usize>, limit: nat) -> bool {
    &&& forall|i: int, j: int| 0 <= i <= j < positions.len() ==> positions[i] <= positions[j]
    &&& forall|i: int| 0 <= i < positions.len() ==> positions[i] <= limit
}

/// In a table whose entries ascend, the chosen positions are strictly
/// ascending, and all lie before the entry that the way leads to.
pub proof fn lemma_breaks_ascend(table: Seq<Breakpoint>, i: int)
    requires
        ascending_positions(table),
    ensures
        strictly_ascending(breaks_on_way(table, i)),
        forall|k: int|
            0 <= k < breaks_on_way(table, i).len() ==> 0 <= i < table.len() && (
            #[trigger] breaks_on_way(table, i)[k]) < table[i].position,
    decreases i,
{
    match link(table, i) {
        Some(p) => {
            match link(table, p) {
                Some(_) => {
                    lemma_breaks_ascend(table, p);
                    assert(table[p].position < table[i].position);
                },
                None => {},
            }
        },
        None => {},
    }
}

/// The entry before entry `i` on the way that the table records.
fn link_of(table: &Vec<Breakpoint>, i: usize) -> (before: Option<usize>)
    ensures
        match before {
            Some(p) => link(table@, i as int) == Some(p as int),
            None => link(table@, i as int) is None,
        },
{
    if i < table.len() {
        match table[i].predecessor {
            Some(p) => if p < i {
                Some(p)
            } else {
                None
            },
            None => None,
        }
    } else {
        None
    }
}

/// The chosen line ends: the positions of the breakpoints on the way that
/// the predecessors record from the start of the paragraph to its end (the
/// last entry of the table), in ascending order. The start and the end
/// themselves are not among them. A predecessor that does not point to an
/// earlier entry ends the walk.
pub fn reconstruct(table: &Vec<Breakpoint>) -> (positions: Vec<usize>)
    ensures
        positions@ == chosen_positions(table@),
        ascending_positions(table@) ==> strictly_ascending(positions@),
{
    proof {
        if ascending_positions(table@) {
            lemma_breaks_ascend(table@, table.len() - 1);
        }
    }
    let mut reversed: Vec<usize> = Vec::new();
    if table.len() == 0 {
        return reversed;
    }
    let mut current: usize = table.len() - 1;
    loop
        invariant
            current < table.len(),
            chosen_positions(table@) == breaks_on_way(table@, current as int)
                + reversed@.reverse(),
        ensures
            chosen_positions(table@) == reversed@.reverse(),
        decreases current,
    {
        let before: Option<usize> = link_of(table, current);
        let p: usize = match before {
            Some(p) => p,
            None => {
                break ;
            },
        };
        if link_of(table, p).is_none() {
            break ;
        }
        let ghost earlier = reversed@;
        reversed.push(table[p].position);
        proof {
            assert(reversed@.reverse() =~= seq![table[p as int].position] + earlier.reverse());
            assert(breaks_on_way(table@, current as int) + earlier.reverse() =~= breaks_on_way(
                table@,
                p as int,
            ) + reversed@.reverse());
        }
        current = p;
    }
    let mut positions: Vec<usize> = Vec::new();
    let mut left: usize = reversed.len();
    while left > 0
        invariant
            left <= reversed.len(),
            positions.len() == reversed.len() - left,
            forall|k: int|
                0 <= k < positions.len() ==> positions[k] == reversed[reversed.len() - 1 - k],
        decreases left,
    {
        left = left - 1;
        positions.push(reversed[left]);
    }
    assert(positions@ =~= reversed@.reverse());
    positions
}

/// `text` with `insert` put in before the character at `position`.
pub open spec fn inserted(text: Seq<char>, position: int, insert: Seq<char>) -> Seq<char> {
    text.subrange(0, position) + insert + text.subrange(position, text.len() as int)
}

/// `text` with the marker put in at each of `positions`. The last position is
/// served first, so that the positions before it still count from the start
/// of the text as they did.
pub open spec fn annotated(text: Seq<char>, positions: Seq<usize>) -> Seq<char>
    decreases positions.len(),
{
    if positions.len() == 0 {
        text
    } else {
        annotated(inserted(text, positions.last() as int, marker()), positions.drop_last())
    }
}

/// Text with no position to mark stays as it is.
pub proof fn lemma_annotate_nothing(text: Seq<char>)
    ensures
        annotated(text, Seq::empty()) == text,
{
}

/// What stands behind the last position is not touched: it can as well be
/// added after the markers are put in.
pub proof fn lemma_annotated_tail(text: Seq<char>, tail: Seq<char>, positions: Seq<usize>)
    requires
        ascending_within(positions, text.len()),
    ensures
        annotated(text + tail, positions) == annotated(text, positions) + tail,
    decreases positions.len(),
{
    if positions.len() > 0 {
        let last = positions.last() as int;
        let rest = positions.drop_last();
        assert(inserted(text + tail, last, marker()) =~= inserted(text, last, marker()) + tail);
        assert forall|i: int| 0 <= i < rest.len() implies rest[i] <= inserted(
            text,
            last,
            marker(),
        ).len() by {
            assert(rest[i] == positions[i]);
            assert(positions[i] <= positions[positions.len() - 1]);
        }
        lemma_annotated_tail(inserted(text, last, marker()), tail, rest);
    } else {
        assert(annotated(text + tail, positions) == text + tail);
    }
}

/// A marker at the very end of the text comes last in the result.
pub proof fn lemma_annotated_at_end(text: Seq<char>, positions: Seq<usize>)
    requires
        ascending_within(positions, text.len()),
        text.len() <= usize::MAX,
    ensures
        annotated(text, positions.push(text.len() as usize)) == annotated(text, positions)
            + marker(),
{
    let all = positions.push(text.len() as usize);
    assert(all.drop_last() =~= positions);
    assert(inserted(text, text.len() as int, marker()) =~= text + marker());
    lemma_annotated_tail(text, marker(), positions);
}

/// `std::string::String::push`: the character is added at the end of the
/// string, and nothing else of it changes.
pub assume_specification[ String::push ](string: &mut String, ch: char)
    ensures
        final(string)@ == old(string)@.push(ch),
;

/// `text` with the marker `&shy;` put in at each of `positions`, which count
/// characters from the start of `text` and stand in ascending order. The
/// markers are set as if the last position were served first, so that no
/// marker moves a position that is still to be served.
pub fn annotate(text: &str, positions: &Vec<usize>) -> (out: String)
    requires
        ascending_within(positions@, text@.len()),
    ensures
        out@ == annotated(text@, positions@),
        positions.len() == 0 ==> out@ == text@,
{
    let length: usize = byte_length(text);
    let mut out: String = String::new();
    let mut rest = text.chars();
    let mut index: usize = 0;
    let mut served: usize = 0;
    let ghost mut done: Seq<char> = Seq::empty();
    proof {
        reveal_strlit("&shy;");
        assert(MARKER@ =~= marker());
        assert(positions@.take(0) =~= Seq::<usize>::empty());
    }
    loop
        invariant
            rest.obeys_prophetic_iter_laws(),
            rest.decrease() is Some,
            done + rest.remaining() == text@,
            done.len() == index,
            text@.len() <= length,
            MARKER@ == marker(),
            ascending_within(positions@, text@.len()),
            served <= positions.len(),
            forall|i: int| 0 <= i < served ==> positions[i] <= index,
            forall|i: int| served <= i < positions.len() ==> positions[i] >= index,
            out@ == annotated(done, positions@.take(served as int)),
        ensures
            out@ == annotated(text@, positions@),
        decreases rest.decrease()->0,
    {
        while served < positions.len() && positions[served] == index
            invariant
                done.len() == index,
                index <= usize::MAX,
                MARKER@ == marker(),
                ascending_within(positions@, text@.len()),
                served <= positions.len(),
                forall|i: int| 0 <= i < served ==> positions[i] <= index,
                forall|i: int| served <= i < positions.len() ==> positions[i] >= index,
                out@ == annotated(done, positions@.take(served as int)),
            decreases positions.len() - served,
        {
            proof {
                let before = positions@.take(served as int);
                assert(positions@.take(served + 1) =~= before.push(index));
                assert(ascending_within(before, done.len()));
                lemma_annotated_at_end(done, before);
            }
            out.append(MARKER);
            served = served + 1;
        }
        match rest.next() {
            Some(ch) => {
                proof {
                    let before = positions@.take(served as int);
                    assert(ascending_within(before, done.len()));
                    lemma_annotated_tail(done, seq![ch], before);
                    assert(done + seq![ch] =~= done.push(ch));
                    assert(done.push(ch) + rest.remaining() =~= text@);
                    assert forall|i: int| served <= i < positions.len() implies positions[i]
                        >= index + 1 by {
                        assert(positions[served as int] <= positions[i]);
                    }
                    done = done.push(ch);
                }
                out.push(ch);
                index = index + 1;
            },
            None => {
                proof {
                    assert(done =~= text@);
                    if served < positions.len() {
                        assert(positions[served as int] <= text@.len());
                    }
                    assert(positions@.take(served as int) =~= positions@);
                }
                break ;
            },
        }
    }
    out
}

} // verus!
