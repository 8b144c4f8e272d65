//! Reading the shallow boundary from its text form: one object id in
//! hexadecimal form per line.

use vstd::prelude::*;
use vstd::slice::slice_subrange;
use crate::error::Error;
use crate::graph::ShallowBoundary;
use crate::object_id::{decode_hex, is_hex_id, ObjectId};

verus! {

/// Where the first newline of `text` is, or its length if it has none.
pub open spec fn line_end(text: Seq<u8>) -> int
    decreases text.len(),
{
    if text.len() == 0 || text[0] == 10 {
        0
    } else {
        1 + line_end(text.drop_first())
    }
}

/// The lines of `text`: what stands between its newlines, and before the
/// first and after the last of them, but for an empty rest after the last.
pub open spec fn lines_of(text: Seq<u8>) -> Seq<Seq<u8>>
    decreases text.len(),
{
    if text.len() == 0 {
        Seq::empty()
    } else {
        let end = line_end(text);
        if end < 0 || end >= text.len() {
            seq![text]
        } else {
            seq![text.take(end)] + lines_of(text.skip(end + 1))
        }
    }
}

/// Every one of the lines is the hexadecimal form of an object id.
pub open spec fn all_hex_ids(lines: Seq<Seq<u8>>) -> bool {
    forall|k: int| 0 <= k < lines.len() ==> is_hex_id(#[trigger] lines[k])
}

/// The ids that the lines are the hexadecimal forms of.
pub open spec fn ids_of_lines(lines: Seq<Seq<u8>>) -> Set<Seq<u8>> {
    lines.map_values(|line: Seq<u8>| decode_hex(line)).to_set()
}

/// A stretch without newline that ends at a newline or at the end of the
/// text is the first line.
proof fn lemma_line_end(text: Seq<u8>, n: int)
    requires
        0 <= n <= text.len(),
        forall|k: int| 0 <= k < n ==> text[k] != 10,
        n == text.len() || text[n] == 10,
    ensures
        line_end(text) == n,
    decreases n,
{
    if n > 0 {
        let rest = text.drop_first();
        assert forall|k: int| 0 <= k < n - 1 implies rest[k] != 10 by {
            assert(rest[k] == text[k + 1]);
        }
        lemma_line_end(rest, n - 1);
    }
}

/// A boundary that grows by the id of one more line holds the ids of the
/// lines so far.
proof fn lemma_one_more_line(held: Seq<Seq<u8>>, line: Seq<u8>)
    ensures
        ids_of_lines(held.push(line)) == ids_of_lines(held).insert(decode_hex(line)),
{
    let decoded = held.map_values(|line: Seq<u8>| decode_hex(line));
    assert(held.push(line).map_values(|line: Seq<u8>| decode_hex(line)) =~= decoded.push(
        decode_hex(line),
    ));
    assert(decoded.push(decode_hex(line)).to_set() =~= decoded.to_set().insert(decode_hex(line)))
        by {
        assert forall|x: Seq<u8>| decoded.push(decode_hex(line)).to_set().contains(x)
            <==> decoded.to_set().insert(decode_hex(line)).contains(x) by {
            crate::graph::lemma_push_contains(decoded, decode_hex(line), x);
        }
    }
}

/// Read the shallow boundary from its text form: object ids in hexadecimal
/// form, one per line. The last line may end without a newline. Empty text
/// is the empty boundary.
///
/// Fails with [`Error::InvalidInput`] if and only if one of the lines is
/// not the hexadecimal form of an object id.
pub fn parse_shallow(text: &[u8]) -> (parsed: Result<ShallowBoundary, Error>)
    ensures
        parsed is Ok <==> all_hex_ids(lines_of(text@)),
        parsed matches Ok(boundary) ==> boundary@ == ids_of_lines(lines_of(text@)),
        parsed matches Err(e) ==> e == Error::InvalidInput,
{
    let mut boundary = ShallowBoundary::new();
    let ghost mut done: Seq<Seq<u8>> = Seq::empty();
    let mut start: usize = 0;
    proof {
        assert(text@.skip(0) =~= text@);
        assert(ids_of_lines(done) =~= Set::<Seq<u8>>::empty());
    }
    while start < text.len()
        invariant
            start <= text@.len(),
            lines_of(text@) == done + lines_of(text@.skip(start as int)),
            all_hex_ids(done),
            boundary@ == ids_of_lines(done),
        decreases text@.len() - start,
    {
        let ghost rest = text@.skip(start as int);
        let mut end: usize = start;
        while end < text.len() && text[end] != 10
            invariant
                start <= end <= text@.len(),
                rest == text@.skip(start as int),
                forall|k: int| 0 <= k < end - start ==> rest[k] != 10,
            decreases text@.len() - end,
        {
            end += 1;
        }
        let line = slice_subrange(text, start, end);
        proof {
            lemma_line_end(rest, end - start);
            assert(line@ =~= rest.take(end - start));
            if end < text@.len() {
                assert(rest.skip(end - start + 1) =~= text@.skip(end + 1));
            } else {
                assert(rest.take(end - start) =~= rest);
                assert(text@.skip(end as int) =~= Seq::<u8>::empty());
            }
            assert(lines_of(rest) =~= seq![line@] + lines_of(
                text@.skip(
                    if end < text@.len() {
                        end + 1
                    } else {
                        end as int
                    },
                ),
            ));
            assert(lines_of(text@)[done.len() as int] == line@);
        }
        match ObjectId::from_hex(line) {
            Ok(id) => {
                proof {
                    lemma_one_more_line(done, line@);
                    assert(done.push(line@) + lines_of(
                        text@.skip(
                            if end < text@.len() {
                                end + 1
                            } else {
                                end as int
                            },
                        ),
                    ) =~= lines_of(text@));
                    done = done.push(line@);
                }
                boundary.insert(id);
            },
            Err(e) => {
                return Err(e);
            },
        }
        start = if end < text.len() {
            end + 1
        } else {
            end
        };
    }
    proof {
        assert(text@.skip(start as int) =~= Seq::<u8>::empty());
        assert(lines_of(text@) =~= done);
    }
    Ok(boundary)
}

} // verus!
