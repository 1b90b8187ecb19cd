//! Character-indexed access to a borrowed input text.
//!
//! The scanner walks the input one `char` at a time, while the tokens it
//! hands out borrow from the input. `Text` keeps the characters and the byte
//! offset of every character boundary, so that a range of characters can be
//! cut out of the input without copying.
use vstd::prelude::*;
use vstd::utf8::*;

verus! {

broadcast use {encode_utf8_valid_utf8, encode_utf8_decode_utf8};

/// Encoding a concatenation gives the concatenation of the encodings.
pub proof fn lemma_encode_concat(a: Seq<char>, b: Seq<char>)
    ensures
        encode_utf8(a + b) == encode_utf8(a) + encode_utf8(b),
    decreases a.len(),
{
    if a.len() == 0 {
        assert(a + b =~= b);
        assert(encode_utf8(a) + encode_utf8(b) =~= encode_utf8(b));
    } else {
        lemma_encode_concat(a.drop_first(), b);
        assert((a + b).drop_first() =~= a.drop_first() + b);
        assert(encode_utf8(a + b) =~= encode_utf8(a) + encode_utf8(b));
    }
}

/// The encoding of a prefix ends on a character boundary of the whole encoding.
proof fn lemma_prefix_boundary(s: Seq<char>, i: int)
    requires
        0 <= i <= s.len(),
    ensures
        is_char_boundary(encode_utf8(s), encode_utf8(s.take(i)).len() as int),
    decreases i,
{
    if i == 0 {
        assert(s.take(0) =~= Seq::<char>::empty());
    } else {
        let bytes = encode_utf8(s);
        encode_utf8_first_scalar(s);
        assert(pop_first_scalar(bytes) =~= encode_utf8(s.drop_first()));
        lemma_prefix_boundary(s.drop_first(), i - 1);
        assert(s.take(i).drop_first() =~= s.drop_first().take(i - 1));
        assert(s.take(i).len() > 0);
    }
}

/// Splits `s` after its first `i` characters, given the byte length of that prefix.
fn split_at_char<'a>(s: &'a str, byte: usize, Ghost(i): Ghost<int>) -> (r: (&'a str, &'a str))
    requires
        0 <= i <= s@.len(),
        byte == encode_utf8(s@.take(i)).len(),
    ensures
        r.0@ == s@.take(i),
        r.1@ == s@.skip(i),
{
    proof {
        lemma_prefix_boundary(s@, i);
        lemma_encode_concat(s@.take(i), s@.skip(i));
        assert(s@.take(i) + s@.skip(i) =~= s@);
    }
    let r = s.split_at(byte);
    proof {
        assert(encode_utf8(r.0@) == encode_utf8(s@.take(i)));
        assert(encode_utf8(r.1@) =~= encode_utf8(s@.skip(i)));
        assert(decode_utf8(encode_utf8(r.0@)) == decode_utf8(encode_utf8(s@.take(i))));
        assert(decode_utf8(encode_utf8(r.1@)) == decode_utf8(encode_utf8(s@.skip(i))));
    }
    r
}

/// Number of bytes in the UTF-8 encoding of `c`.
fn utf8_width(c: char) -> (n: usize)
    ensures
        n == encode_scalar(c as u32).len(),
        1 <= n <= 4,
{
    proof {
        char_is_scalar(c);
    }
    let u = c as u32;
    if u < 0x80 {
        1
    } else if u < 0x800 {
        2
    } else if u < 0x10000 {
        3
    } else {
        4
    }
}

/// Whether two strings hold the same characters.
pub fn same_text(a: &str, b: &str) -> (r: bool)
    ensures
        r == (a@ == b@),
{
    let x = a.as_bytes();
    let y = b.as_bytes();
    if x.len() != y.len() {
        return false;
    }
    let mut i: usize = 0;
    while i < x.len()
        invariant
            x@ == encode_utf8(a@),
            y@ == encode_utf8(b@),
            x@.len() == y@.len(),
            i <= x@.len(),
            forall|j: int| 0 <= j < i ==> x@[j] == y@[j],
        decreases x@.len() - i,
    {
        if x[i] != y[i] {
            return false;
        }
        i = i + 1;
    }
    proof {
        assert(x@ =~= y@);
        assert(decode_utf8(encode_utf8(a@)) == decode_utf8(encode_utf8(b@)));
    }
    true
}

/// A borrowed input with its characters and character boundaries laid out.
pub struct Text<'a> {
    pub src: &'a str,
    pub chars: Vec<char>,
    /// `offsets[i]` is the byte offset of character `i`; the last entry is the byte length.
    pub offsets: Vec<usize>,
}

impl<'a> Text<'a> {
    pub open spec fn wf(&self) -> bool {
        &&& self.chars@ == self.src@
        &&& self.chars@.len() <= usize::MAX
        &&& self.offsets@.len() == self.chars@.len() + 1
        &&& forall|i: int|
            0 <= i <= self.chars@.len() ==> #[trigger] self.offsets@[i] == encode_utf8(
                self.src@.take(i),
            ).len()
    }

    pub fn new(src: &'a str) -> (t: Text<'a>)
        ensures
            t.wf(),
            t.src == src,
    {
        let total = src.as_bytes().len();
        let mut chars: Vec<char> = Vec::new();
        let mut offsets: Vec<usize> = Vec::new();
        let mut pos: usize = 0;
        offsets.push(0);
        proof {
            assert(src@.take(0) =~= Seq::<char>::empty());
        }
        for c in it: src.chars()
            invariant
                total == encode_utf8(src@).len(),
                chars@ == it.seq().take(it.index()),
                it.seq() == src@,
                offsets@.len() == chars@.len() + 1,
                pos == offsets@.last(),
                chars@.len() <= pos <= total,
                forall|i: int|
                    0 <= i <= chars@.len() ==> #[trigger] offsets@[i] == encode_utf8(
                        src@.take(i),
                    ).len(),
        {
            let w = utf8_width(c);
            proof {
                let k = chars@.len() as int;
                assert(src@.take(k + 1) =~= src@.take(k) + seq![c]);
                lemma_encode_concat(src@.take(k), seq![c]);
                reveal_with_fuel(encode_utf8, 2);
                assert(seq![c].drop_first() =~= Seq::<char>::empty());
                assert(encode_utf8(seq![c]) =~= encode_scalar(c as u32));
                lemma_encode_concat(src@.take(k + 1), src@.skip(k + 1));
                assert(src@.take(k + 1) + src@.skip(k + 1) =~= src@);
            }
            pos = pos + w;
            chars.push(c);
            offsets.push(pos);
        }
        proof {
            assert(chars@ =~= src@);
        }
        Text { src, chars, offsets }
    }

    /// Characters `i` up to `j` of the input, borrowed from it.
    pub fn slice(&self, i: usize, j: usize) -> (r: &'a str)
        requires
            self.wf(),
            i <= j <= self.chars@.len(),
        ensures
            r@ == self.src@.subrange(i as int, j as int),
    {
        let (_, tail) = split_at_char(self.src, self.offsets[i], Ghost(i as int));
        proof {
            let s = self.src@;
            assert(s.take(j as int) =~= s.take(i as int) + s.subrange(i as int, j as int));
            lemma_encode_concat(s.take(i as int), s.subrange(i as int, j as int));
            assert(s.skip(i as int).take(j - i) =~= s.subrange(i as int, j as int));
        }
        let (r, _) = split_at_char(tail, self.offsets[j] - self.offsets[i], Ghost((j - i) as int));
        r
    }
}

} // verus!
