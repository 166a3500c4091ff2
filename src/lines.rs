use vstd::prelude::*;
use vstd::std_specs::iter::IteratorSpec;
use vstd::string::StringSliceAdditionalSpecFns;
use vstd::utf8::*;

verus! {

broadcast use {vstd::string::group_string_axioms, vstd::string::next_postcondition};

/// Position of the first line feed in `s`, or `s.len()` when there is none.
pub open spec fn first_newline(s: Seq<char>) -> nat
    decreases s.len(),
{
    if s.len() == 0 {
        0
    } else if s[0] == '\n' {
        0
    } else {
        1 + first_newline(s.drop_first())
    }
}

/// A line ended by a line feed loses one carriage return before it.
pub open spec fn strip_cr(l: Seq<char>) -> Seq<char> {
    if l.len() > 0 && l.last() == '\r' {
        l.drop_last()
    } else {
        l
    }
}

/// The lines of a text. A line feed ends a line, and a carriage return just
/// before it is part of the line ending. The last line needs no line ending,
/// so a text that ends with one has no empty last line.
pub open spec fn lines_of(s: Seq<char>) -> Seq<Seq<char>>
    decreases s.len(),
{
    if s.len() == 0 {
        seq![]
    } else {
        let k = first_newline(s) as int;
        if k >= s.len() {
            seq![s]
        } else {
            seq![strip_cr(s.take(k))] + lines_of(s.skip(k + 1))
        }
    }
}

proof fn lemma_first_newline_bounds(s: Seq<char>)
    ensures
        0 <= first_newline(s) <= s.len(),
        first_newline(s) < s.len() ==> s[first_newline(s) as int] == '\n',
        forall|j: int| 0 <= j < first_newline(s) ==> s[j] != '\n',
    decreases s.len(),
{
    if s.len() > 0 && s[0] != '\n' {
        lemma_first_newline_bounds(s.drop_first());
        assert forall|j: int| 0 <= j < first_newline(s) implies s[j] != '\n' by {
            if j > 0 {
                assert(s[j] == s.drop_first()[j - 1]);
            }
        }
    }
}

proof fn lemma_first_newline_at(s: Seq<char>, k: int)
    requires
        0 <= k <= s.len(),
        k < s.len() ==> s[k] == '\n',
        forall|j: int| 0 <= j < k ==> s[j] != '\n',
    ensures
        first_newline(s) == k,
{
    lemma_first_newline_bounds(s);
    let f = first_newline(s) as int;
    if f < k {
        assert(s[f] == '\n');
    } else if k < f {
        assert(s[k] != '\n');
    }
}

/// The UTF-8 encoding of a concatenation is the concatenation of the encodings.
proof fn lemma_encode_concat(a: Seq<char>, b: Seq<char>)
    ensures
        encode_utf8(a + b) == encode_utf8(a) + encode_utf8(b),
    decreases a.len(),
{
    if a.len() == 0 {
        assert(a + b =~= b);
        assert(encode_utf8(a) + encode_utf8(b) =~= encode_utf8(b));
    } else {
        lemma_encode_concat(a.drop_first(), b);
        assert((a + b).drop_first() =~= a.drop_first() + b);
        assert((a + b)[0] == a[0]);
        assert(encode_utf8(a + b) =~= encode_utf8(a) + encode_utf8(b));
    }
}

proof fn lemma_encode_injective(a: Seq<char>, b: Seq<char>)
    requires
        encode_utf8(a) == encode_utf8(b),
    ensures
        a == b,
{
    encode_utf8_decode_utf8(a);
    encode_utf8_decode_utf8(b);
}

/// The byte offset of every character position is a character boundary.
proof fn lemma_prefix_is_boundary(s: Seq<char>, k: int)
    requires
        0 <= k <= s.len(),
    ensures
        is_char_boundary(encode_utf8(s), encode_utf8(s.take(k)).len() as int),
    decreases s.len(),
{
    encode_utf8_valid_utf8(s);
    if k == 0 {
        assert(s.take(0) =~= Seq::<char>::empty());
    } else {
        let bytes = encode_utf8(s);
        let rest = s.drop_first();
        encode_utf8_first_scalar(s);
        assert(pop_first_scalar(bytes) =~= encode_utf8(rest));
        lemma_prefix_is_boundary(rest, k - 1);
        assert(s.take(k).drop_first() =~= rest.take(k - 1));
        assert(s.take(k)[0] == s[0]);
        lemma_encode_concat(s.take(k), s.skip(k));
        assert(s.take(k) + s.skip(k) =~= s);
    }
}

/// The byte offset of a character position.
pub open spec fn byte_offset(s: Seq<char>, k: int) -> int {
    encode_utf8(s.take(k)).len() as int
}

proof fn lemma_byte_offset_step(s: Seq<char>, k: int)
    requires
        0 <= k < s.len(),
    ensures
        byte_offset(s, k + 1) == byte_offset(s, k) + encode_scalar(s[k] as u32).len(),
        byte_offset(s, k + 1) <= encode_utf8(s).len(),
{
    assert(s.take(k + 1) =~= s.take(k) + seq![s[k]]);
    lemma_encode_concat(s.take(k), seq![s[k]]);
    assert(seq![s[k]].drop_first() =~= Seq::<char>::empty());
    assert(encode_utf8(Seq::<char>::empty()) =~= Seq::<u8>::empty());
    assert(encode_utf8(seq![s[k]]) =~= encode_scalar(s[k] as u32) + encode_utf8(
        Seq::<char>::empty(),
    ));
    assert(s.take(k + 1) + s.skip(k + 1) =~= s);
    lemma_encode_concat(s.take(k + 1), s.skip(k + 1));
}

/// The number of bytes in the UTF-8 encoding of `c`.
fn char_width(c: char) -> (r: usize)
    ensures
        r == encode_scalar(c as u32).len(),
        1 <= r <= 4,
{
    let v = c as u32;
    if v <= 0x7F {
        1
    } else if v <= 0x7FF {
        2
    } else if v <= 0xFFFF {
        proof {
            char_is_scalar(c);
        }
        3
    } else {
        4
    }
}

/// The characters of `s` from position `from` up to `to`, borrowed from `s`,
/// given the byte offsets of both positions.
fn slice_chars<'a>(s: &'a str, from: usize, from_byte: usize, to: usize, to_byte: usize) -> (r:
    &'a str)
    requires
        from <= to <= s@.len(),
        from_byte == byte_offset(s@, from as int),
        to_byte == byte_offset(s@, to as int),
    ensures
        r@ == s@.subrange(from as int, to as int),
{
    proof {
        lemma_prefix_is_boundary(s@, to as int);
    }
    let (head, _) = s.split_at(to_byte);
    proof {
        lemma_encode_concat(s@.take(to as int), s@.skip(to as int));
        assert(s@.take(to as int) + s@.skip(to as int) =~= s@);
        assert(encode_utf8(head@) =~= encode_utf8(s@.take(to as int)));
        lemma_encode_injective(head@, s@.take(to as int));
        assert(head@.take(from as int) =~= s@.take(from as int));
        lemma_prefix_is_boundary(head@, from as int);
    }
    let (_, r) = head.split_at(from_byte);
    proof {
        let mid = s@.subrange(from as int, to as int);
        assert(head@ =~= s@.take(from as int) + mid);
        lemma_encode_concat(s@.take(from as int), mid);
        assert(encode_utf8(r@) =~= encode_utf8(mid));
        lemma_encode_injective(r@, mid);
    }
    r
}

/// The text of each borrowed slice, in order.
pub open spec fn views(v: Seq<&str>) -> Seq<Seq<char>> {
    v.map_values(|l: &str| l@)
}

proof fn lemma_lines_step(s: Seq<char>, ls: int, i: int)
    requires
        0 <= ls <= i < s.len(),
        s[i] == '\n',
        forall|j: int| ls <= j < i ==> s[j] != '\n',
    ensures
        lines_of(s.skip(ls)) == seq![strip_cr(s.subrange(ls, i))] + lines_of(s.skip(i + 1)),
{
    let t = s.skip(ls);
    lemma_first_newline_at(t, i - ls);
    assert(t.take(i - ls) =~= s.subrange(ls, i));
    assert(t.skip(i - ls + 1) =~= s.skip(i + 1));
}

proof fn lemma_lines_last(s: Seq<char>, ls: int)
    requires
        0 <= ls <= s.len(),
        forall|j: int| ls <= j < s.len() ==> s[j] != '\n',
    ensures
        ls < s.len() ==> lines_of(s.skip(ls)) == seq![s.subrange(ls, s.len() as int)],
        ls == s.len() ==> lines_of(s.skip(ls)) == Seq::<Seq<char>>::empty(),
{
    let t = s.skip(ls);
    lemma_first_newline_at(t, t.len() as int);
    assert(t =~= s.subrange(ls, s.len() as int));
}

/// Splits `contents` into its lines, each borrowed from `contents`.
pub fn lines<'a>(contents: &'a str) -> (r: Vec<&'a str>)
    ensures
        views(r@) == lines_of(contents@),
{
    let ghost s = contents@;
    let total = contents.as_bytes().len();
    let mut it = contents.chars();
    let mut out: Vec<&'a str> = Vec::new();
    let mut i: usize = 0;
    let mut b: usize = 0;
    let mut ls: usize = 0;
    let mut lsb: usize = 0;
    let mut prev_cr = false;
    proof {
        assert(s.take(0) =~= Seq::<char>::empty());
        assert(s.skip(0) =~= s);
        assert(views(out@) =~= Seq::<Seq<char>>::empty());
        assert(lines_of(s) =~= views(out@) + lines_of(s.skip(0)));
    }
    loop
        invariant_except_break
            lines_of(s) == views(out@) + lines_of(s.skip(ls as int)),
        invariant
            s == contents@,
            total == encode_utf8(s).len(),
            it.remaining() == s.skip(i as int),
            ls <= i <= s.len(),
            b == byte_offset(s, i as int),
            i <= b,
            lsb == byte_offset(s, ls as int),
            prev_cr == (ls < i && s[i - 1] == '\r'),
            forall|j: int| ls <= j < i ==> s[j] != '\n',
        ensures
            views(out@) == lines_of(s),
        decreases s.len() - i,
    {
        let ghost before = it;
        match it.next() {
            Some(c) => {
                proof {
                    assert(c == s[i as int]);
                    assert(it.remaining() =~= s.skip(i + 1));
                    lemma_byte_offset_step(s, i as int);
                }
                let w = char_width(c);
                if c == '\n' {
                    let (e, eb) = if prev_cr {
                        proof {
                            lemma_byte_offset_step(s, i - 1);
                        }
                        (i - 1, b - 1)
                    } else {
                        (i, b)
                    };
                    let line = slice_chars(contents, ls, lsb, e, eb);
                    proof {
                        lemma_lines_step(s, ls as int, i as int);
                        let l = s.subrange(ls as int, i as int);
                        if prev_cr {
                            assert(l.drop_last() =~= s.subrange(ls as int, e as int));
                        }
                        assert(strip_cr(l) == line@);
                    }
                    let ghost prior = out@;
                    out.push(line);
                    proof {
                        assert(views(out@) =~= views(prior) + seq![line@]);
                    }
                    ls = i + 1;
                    lsb = b + w;
                    prev_cr = false;
                } else {
                    prev_cr = c == '\r';
                }
                i = i + 1;
                b = b + w;
            },
            None => {
                proof {
                    assert(before.remaining().len() == 0);
                    lemma_lines_last(s, ls as int);
                }
                if ls < i {
                    let line = slice_chars(contents, ls, lsb, i, b);
                    let ghost prior = out@;
                    out.push(line);
                    proof {
                        assert(views(out@) =~= views(prior) + seq![line@]);
                    }
                } else {
                    proof {
                        assert(lines_of(s) =~= views(out@));
                    }
                }
                break;
            },
        }
    }
    out
}

} // verus!
