//! Conversion of byte offsets of a UTF-8 text into character positions.
use vstd::prelude::*;
use vstd::string::{axiom_spec_iter, next_postcondition};
use vstd::std_specs::iter::IteratorSpec;
use crate::model::{byte_pos, byte_image, utf8_width};

verus! {

/// Number of bytes that `c` takes in UTF-8.
pub fn utf8_width_of(c: char) -> (r: usize)
    ensures
        r == utf8_width(c),
        1 <= r <= 4,
{
    let u = c as u32;
    if u < 0x80 {
        1
    } else if u < 0x800 {
        2
    } else if u < 0x10000 {
        3
    } else {
        4
    }
}

/// Each character takes at least one byte.
pub proof fn lemma_byte_pos_grows(text: Seq<char>, i: int)
    requires
        0 <= i,
    ensures
        byte_pos(text, i) >= i,
    decreases i,
{
    if i > 0 {
        lemma_byte_pos_grows(text, i - 1);
    }
}

/// Byte offsets grow strictly with character positions.
pub proof fn lemma_byte_pos_increasing(text: Seq<char>, j: int, i: int)
    requires
        0 <= j < i,
    ensures
        byte_pos(text, j) < byte_pos(text, i),
    decreases i - j,
{
    if j < i - 1 {
        lemma_byte_pos_increasing(text, j, i - 1);
    }
}

/// A table that maps the byte offset of every character boundary of `text`
/// (the end included) to its character position.
pub fn char_positions(text: &str) -> (table: Vec<usize>)
    ensures
        forall|i: int| 0 <= i <= text@.len() ==> #[trigger] byte_pos(text@, i) < table@.len(),
        forall|i: int|
            0 <= i <= text@.len() ==> #[trigger] table@[byte_pos(text@, i) as int] == i,
{
    broadcast use {axiom_spec_iter, next_postcondition};

    let mut table: Vec<usize> = Vec::new();
    let mut it = text.chars();
    let ghost n = text@.len();
    let mut i: usize = 0;
    loop
        invariant
            i <= n,
            n == text@.len(),
            it.remaining() == text@.subrange(i as int, n as int),
            it.obeys_prophetic_iter_laws(),
            table@.len() == byte_pos(text@, i as int),
            forall|j: int| 0 <= j < i ==> #[trigger] table@[byte_pos(text@, j) as int] == j,
        ensures
            i == n,
            table@.len() == byte_pos(text@, i as int),
            forall|j: int| 0 <= j < i ==> #[trigger] table@[byte_pos(text@, j) as int] == j,
        decreases n - i,
    {
        let ghost rem = it.remaining();
        let next = it.next();
        match next {
            Some(c) => {
                assert(c == text@[i as int]);
                let w = utf8_width_of(c);
                let ghost before = table@.len();
                let ghost prev = table@;
                table.push(i);
                let mut k: usize = 1;
                while k < w
                    invariant
                        1 <= k <= w <= 4,
                        table@.len() == before + k,
                        table@[before as int] == i,
                        prev.len() == before,
                        table@.subrange(0, before as int) == prev,
                    decreases w - k,
                {
                    table.push(i);
                    k = k + 1;
                    assert(table@.subrange(0, before as int) =~= prev);
                }
                assert forall|j: int| 0 <= j < i + 1 implies #[trigger] table@[byte_pos(
                    text@,
                    j,
                ) as int] == j by {
                    if j < i {
                        lemma_byte_pos_increasing(text@, j, i as int);
                        assert(prev[byte_pos(text@, j) as int] == j);
                        assert(table@.subrange(0, before as int)[byte_pos(text@, j) as int] == j);
                    }
                }
                proof {
                    lemma_byte_pos_grows(text@, i + 1);
                }
                assert(byte_pos(text@, i + 1) == byte_pos(text@, i as int) + utf8_width(
                    text@[i as int],
                ));
                // The table's length is a `usize` above `i`, so `i + 1` fits.
                let len = table.len();
                assert(len > i);
                i = i + 1;
                assert(it.remaining() =~= text@.subrange(i as int, n as int));
            },
            None => {
                assert(rem.len() == 0);
                assert(text@.subrange(i as int, n as int).len() == n - i);
                break;
            },
        }
    }
    let end = table.len();
    let ghost prev = table@;
    table.push(i);
    assert(table@.subrange(0, end as int) =~= prev);
    assert(table@[end as int] == i);
    assert forall|j: int| 0 <= j <= text@.len() implies #[trigger] byte_pos(text@, j) < table@.len()
        && table@[byte_pos(text@, j) as int] == j by {
        if j < i {
            lemma_byte_pos_increasing(text@, j, i as int);
            assert(table@.subrange(0, end as int)[byte_pos(text@, j) as int] == j);
        }
    }
    table
}

/// Rewrites byte offsets into character positions.
pub fn to_char_positions(text: &str, raw: &Vec<(usize, usize, usize)>) -> (r: Vec<
    (usize, usize, usize),
>)
    requires
        exists|c: Seq<(usize, usize, usize)>| byte_image(text@, c, raw@),
    ensures
        forall|c: Seq<(usize, usize, usize)>| byte_image(text@, c, raw@) ==> r@ == c,
{
    let ghost c = choose|c: Seq<(usize, usize, usize)>| byte_image(text@, c, raw@);
    let table = char_positions(text);
    let mut r: Vec<(usize, usize, usize)> = Vec::new();
    let mut n: usize = 0;
    while n < raw.len()
        invariant
            byte_image(text@, c, raw@),
            n <= raw@.len(),
            r@ == c.subrange(0, n as int),
            forall|i: int| 0 <= i <= text@.len() ==> #[trigger] byte_pos(text@, i) < table@.len(),
            forall|i: int|
                0 <= i <= text@.len() ==> #[trigger] table@[byte_pos(text@, i) as int] == i,
        decreases raw@.len() - n,
    {
        let m = raw[n];
        assert(c[n as int].0 <= c[n as int].1 <= text@.len());
        assert(table@[byte_pos(text@, c[n as int].0 as int) as int] == c[n as int].0);
        assert(table@[byte_pos(text@, c[n as int].1 as int) as int] == c[n as int].1);
        let s = table[m.0];
        let e = table[m.1];
        r.push((s, e, m.2));
        n = n + 1;
        assert(r@ =~= c.subrange(0, n as int));
    }
    assert(r@ =~= c);
    assert forall|d: Seq<(usize, usize, usize)>| byte_image(text@, d, raw@) implies r@ == d by {
        assert forall|j: int| 0 <= j < d.len() implies d[j] == c[j] by {
            assert(table@[byte_pos(text@, d[j].0 as int) as int] == d[j].0);
            assert(table@[byte_pos(text@, c[j].0 as int) as int] == c[j].0);
            assert(table@[byte_pos(text@, d[j].1 as int) as int] == d[j].1);
            assert(table@[byte_pos(text@, c[j].1 as int) as int] == c[j].1);
        }
        assert(r@ =~= d);
    }
    r
}

} // verus!
