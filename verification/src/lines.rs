//! Prefix selection over a source's raw bytes: the first `count` lines or
//! the first `count` bytes, with the line structure of a byte sequence as
//! the underlying model.

use vstd::prelude::*;

verus! {

/// The byte that terminates a line.
pub const NEWLINE: u8 = 10;

/// How many newline bytes a byte sequence holds; equivalently, how many
/// newline-terminated lines it holds.
pub open spec fn newline_count(s: Seq<u8>) -> nat
    decreases s.len(),
{
    if s.len() == 0 {
        0
    } else {
        (if s[0] == NEWLINE {
            1nat
        } else {
            0nat
        }) + newline_count(s.skip(1))
    }
}

/// Length of the prefix of `s` that covers its first `count` lines: bytes
/// are consumed up to and including the `count`-th newline, or to the end
/// of `s` when it holds fewer than `count` newlines.
pub open spec fn line_prefix_len(s: Seq<u8>, count: nat) -> nat
    decreases s.len(),
{
    if count == 0 || s.len() == 0 {
        0
    } else if s[0] == NEWLINE {
        1 + line_prefix_len(s.skip(1), (count - 1) as nat)
    } else {
        1 + line_prefix_len(s.skip(1), count)
    }
}

/// The lines of a byte sequence: each newline-terminated segment is one
/// line, and a trailing unterminated fragment is one more.
pub open spec fn split_lines(s: Seq<u8>) -> Seq<Seq<u8>>
    decreases s.len(),
    via split_lines_decreases
{
    if s.len() == 0 {
        seq![]
    } else {
        let k = line_prefix_len(s, 1);
        seq![s.take(k as int)] + split_lines(s.skip(k as int))
    }
}

#[via_fn]
proof fn split_lines_decreases(s: Seq<u8>) {
    if s.len() != 0 {
        lemma_line_prefix_le_len(s, 1);
        assert(line_prefix_len(s, 1) >= 1);
    }
}

/// A line prefix never reaches past the end of the sequence.
proof fn lemma_line_prefix_le_len(s: Seq<u8>, count: nat)
    ensures
        line_prefix_len(s, count) <= s.len(),
    decreases s.len(),
{
    if count != 0 && s.len() != 0 {
        if s[0] == NEWLINE {
            lemma_line_prefix_le_len(s.skip(1), (count - 1) as nat);
        } else {
            lemma_line_prefix_le_len(s.skip(1), count);
        }
    }
}

/// The first line of a nonempty sequence: it has at least one byte, and it
/// ends with a newline exactly when the sequence holds one.
proof fn lemma_first_line(s: Seq<u8>)
    requires
        s.len() > 0,
    ensures
        1 <= line_prefix_len(s, 1) <= s.len(),
        newline_count(s) >= 1 ==> s[line_prefix_len(s, 1) - 1] == NEWLINE && newline_count(
            s.skip(line_prefix_len(s, 1) as int),
        ) == newline_count(s) - 1,
        newline_count(s) == 0 ==> line_prefix_len(s, 1) == s.len(),
    decreases s.len(),
{
    lemma_line_prefix_le_len(s, 1);
    if s[0] == NEWLINE {
        assert(line_prefix_len(s.skip(1), 0) == 0);
    } else {
        let rest = s.skip(1);
        if rest.len() == 0 {
            assert(newline_count(s) == 0);
        } else {
            lemma_first_line(rest);
            let k = line_prefix_len(rest, 1);
            assert(line_prefix_len(s, 1) == 1 + k);
            if newline_count(s) >= 1 {
                assert(s[1 + k - 1] == rest[k - 1]);
                assert(s.skip(1 + k as int) =~= rest.skip(k as int));
            }
        }
    }
}

/// Consuming `count` lines is consuming the first line, then `count - 1`
/// more lines from what follows it.
proof fn lemma_line_prefix_step(s: Seq<u8>, count: nat)
    requires
        s.len() > 0,
        count >= 1,
    ensures
        line_prefix_len(s, count) == line_prefix_len(s, 1) + line_prefix_len(
            s.skip(line_prefix_len(s, 1) as int),
            (count - 1) as nat,
        ),
    decreases s.len(),
{
    if s[0] == NEWLINE {
        assert(line_prefix_len(s, 1) == 1 + line_prefix_len(s.skip(1), 0) == 1);
    } else {
        let rest = s.skip(1);
        if rest.len() == 0 {
            assert(line_prefix_len(rest, count) == 0);
            assert(line_prefix_len(rest, (count - 1) as nat) == 0);
            assert(s.skip(1) =~= rest);
        } else {
            lemma_line_prefix_step(rest, count);
            lemma_line_prefix_le_len(rest, 1);
            let k = line_prefix_len(rest, 1);
            assert(line_prefix_len(s, 1) == 1 + k);
            assert(s.skip(1 + k as int) =~= rest.skip(k as int));
        }
    }
}

/// Line mode with a count no larger than the number of newline-terminated
/// lines emits exactly the first `count` lines, each ending in a newline,
/// and nothing beyond them.
pub proof fn lemma_line_prefix_exact(s: Seq<u8>, count: nat)
    requires
        count <= newline_count(s),
    ensures
        split_lines(s).len() >= count,
        s.take(line_prefix_len(s, count) as int) == split_lines(s).take(count as int).flatten(),
        forall|i: int|
            0 <= i < count ==> (#[trigger] split_lines(s)[i]).len() > 0 && split_lines(
                s,
            )[i].last() == NEWLINE,
    decreases count,
{
    if count == 0 {
        assert(split_lines(s).take(0) =~= Seq::<Seq<u8>>::empty());
        assert(Seq::<Seq<u8>>::empty().flatten() =~= Seq::<u8>::empty());
        assert(s.take(0) =~= Seq::<u8>::empty());
    } else {
        assert(newline_count(s) >= 1);
        assert(s.len() > 0);
        lemma_first_line(s);
        let k = line_prefix_len(s, 1);
        let first = s.take(k as int);
        let rest = s.skip(k as int);
        lemma_line_prefix_exact(rest, (count - 1) as nat);
        lemma_line_prefix_step(s, count);
        lemma_line_prefix_le_len(rest, (count - 1) as nat);
        let m = line_prefix_len(rest, (count - 1) as nat);
        assert(s.take(k + m as int) =~= first + rest.take(m as int));
        let parts = split_lines(s).take(count as int);
        assert(split_lines(s) == seq![first] + split_lines(rest));
        assert(parts =~= seq![first] + split_lines(rest).take(count - 1));
        assert(parts.len() != 0);
        assert(parts.first() == first);
        assert(parts.drop_first() =~= split_lines(rest).take(count - 1));
        assert(parts.flatten() == first + split_lines(rest).take(count - 1).flatten());
        assert(first.len() == k >= 1);
        assert(first.last() == s[k - 1]);
        assert(forall|i: int|
            1 <= i < count ==> split_lines(s)[i] == #[trigger] split_lines(rest)[i - 1]);
    }
}

/// Line mode with a count larger than the number of newline-terminated
/// lines emits the entire source.
pub proof fn lemma_line_prefix_covers_all(s: Seq<u8>, count: nat)
    requires
        count > newline_count(s),
    ensures
        line_prefix_len(s, count) == s.len(),
    decreases s.len(),
{
    if s.len() != 0 {
        if s[0] == NEWLINE {
            lemma_line_prefix_covers_all(s.skip(1), (count - 1) as nat);
        } else {
            lemma_line_prefix_covers_all(s.skip(1), count);
        }
    }
}

/// The first `count` lines of a source, as emitted in line mode: the bytes
/// of `content` up to and including the `count`-th newline, or all of
/// `content` when it has fewer than `count` newlines.
pub fn head_lines(content: &Vec<u8>, count: usize) -> (r: Vec<u8>)
    ensures
        r@ == content@.take(line_prefix_len(content@, count as nat) as int),
{
    let mut out: Vec<u8> = Vec::new();
    let mut remaining: usize = count;
    let mut i: usize = 0;
    proof {
        assert(content@.skip(0) =~= content@);
    }
    while i < content.len() && remaining > 0
        invariant
            i <= content@.len(),
            remaining <= count,
            out@ == content@.take(i as int),
            line_prefix_len(content@, count as nat) == i + line_prefix_len(
                content@.skip(i as int),
                remaining as nat,
            ),
        decreases content@.len() - i,
    {
        let b = content[i];
        proof {
            assert(content@.skip(i as int)[0] == b);
            assert(content@.skip(i as int).skip(1) =~= content@.skip(i + 1));
            assert(content@.take(i + 1) =~= content@.take(i as int).push(b));
        }
        out.push(b);
        if b == NEWLINE {
            remaining = remaining - 1;
        }
        i = i + 1;
    }
    proof {
        if remaining == 0 {
            assert(line_prefix_len(content@.skip(i as int), 0) == 0);
        } else {
            assert(content@.skip(i as int).len() == 0);
        }
    }
    out
}

/// The first `count` bytes of a source, as emitted in byte mode: all of
/// `content` when it is shorter than `count`.
pub fn head_bytes(content: &Vec<u8>, count: usize) -> (r: Vec<u8>)
    ensures
        r@ == content@.take(vstd::math::min(count as int, content@.len() as int)),
{
    let mut out: Vec<u8> = Vec::new();
    let mut i: usize = 0;
    while i < content.len() && i < count
        invariant
            i <= content@.len(),
            i <= count,
            out@ == content@.take(i as int),
        decreases content@.len() - i,
    {
        proof {
            assert(content@.take(i + 1) =~= content@.take(i as int).push(content@[i as int]));
        }
        out.push(content[i]);
        i = i + 1;
    }
    out
}

} // verus!
