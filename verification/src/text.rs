use crate::measure::{Measure, MeasurePredicate, Measured};
use crate::tree::{seq_measure, SplayTree};
use vstd::prelude::*;
use vstd::std_specs::iter::IteratorSpec;
use vstd::string::StringExecFns;
use vstd::utf8::encode_utf8;

verus! {

/// Saturating addition on `usize`: the exact sum where it fits, and the
/// largest representable value where it does not.
pub open spec fn sat_add(a: usize, b: usize) -> usize {
    if a + b > usize::MAX {
        usize::MAX
    } else {
        (a + b) as usize
    }
}

/// The number of line breaks in a run of text.
pub open spec fn newlines(s: Seq<char>) -> nat
    decreases s.len(),
{
    if s.len() == 0 {
        0
    } else {
        newlines(s.drop_last()) + (if s.last() == '\n' {
            1nat
        } else {
            0nat
        })
    }
}

/// There are never more line breaks than characters.
pub proof fn lemma_newlines_le_len(s: Seq<char>)
    ensures
        newlines(s) <= s.len(),
    decreases s.len(),
{
    if s.len() > 0 {
        lemma_newlines_le_len(s.drop_last());
    }
}

/// Line breaks are counted piecewise across a concatenation.
pub proof fn lemma_newlines_concat(a: Seq<char>, b: Seq<char>)
    ensures
        newlines(a + b) == newlines(a) + newlines(b),
    decreases b.len(),
{
    if b.len() == 0 {
        assert(a + b =~= a);
    } else {
        assert((a + b).drop_last() =~= a + b.drop_last());
        assert((a + b).last() == b.last());
        lemma_newlines_concat(a, b.drop_last());
    }
}

/// The UTF-8 encoding of a concatenation is the concatenation of the
/// encodings.
pub proof fn lemma_encode_concat(a: Seq<char>, b: Seq<char>)
    ensures
        encode_utf8(a + b) == encode_utf8(a) + encode_utf8(b),
    decreases a.len(),
{
    if a.len() == 0 {
        assert(a + b =~= b);
        assert(encode_utf8(a) + encode_utf8(b) =~= encode_utf8(b));
    } else {
        assert((a + b).len() > 0);
        assert((a + b)[0] == a[0]);
        assert((a + b).drop_first() =~= a.drop_first() + b);
        lemma_encode_concat(a.drop_first(), b);
        assert(vstd::utf8::encode_scalar(a[0] as u32) + (encode_utf8(a.drop_first())
            + encode_utf8(b)) =~= (vstd::utf8::encode_scalar(a[0] as u32) + encode_utf8(
            a.drop_first(),
        )) + encode_utf8(b));
    }
}

/// Every character occupies at least one byte in UTF-8.
pub proof fn lemma_char_le_byte(s: Seq<char>)
    ensures
        encode_utf8(s).len() >= s.len(),
    decreases s.len(),
{
    if s.len() > 0 {
        assert(vstd::utf8::encode_scalar(s[0] as u32).len() >= 1);
        lemma_char_le_byte(s.drop_first());
    }
}

/// The measure of a run of text: its byte length, character count and
/// line-break count, combined component-wise by saturating addition.
#[derive(Clone, Copy, PartialEq, Eq, Structural, Debug)]
pub struct StringMeasure {
    pub len: usize,
    pub char_count: usize,
    pub newline_count: usize,
}

impl Measure for StringMeasure {
    open spec fn spec_zero() -> Self {
        StringMeasure { len: 0, char_count: 0, newline_count: 0 }
    }

    open spec fn spec_combine(self, other: Self) -> Self {
        StringMeasure {
            len: sat_add(self.len, other.len),
            char_count: sat_add(self.char_count, other.char_count),
            newline_count: sat_add(self.newline_count, other.newline_count),
        }
    }

    proof fn lemma_zero_identity(x: Self) {
    }

    proof fn lemma_combine_associative(x: Self, y: Self, z: Self) {
    }

    fn zero() -> (r: Self) {
        StringMeasure { len: 0, char_count: 0, newline_count: 0 }
    }

    fn combine(&self, other: &Self) -> (r: Self) {
        let len = if self.len > usize::MAX - other.len {
            usize::MAX
        } else {
            self.len + other.len
        };
        let char_count = if self.char_count > usize::MAX - other.char_count {
            usize::MAX
        } else {
            self.char_count + other.char_count
        };
        let newline_count = if self.newline_count > usize::MAX - other.newline_count {
            usize::MAX
        } else {
            self.newline_count + other.newline_count
        };
        StringMeasure { len, char_count, newline_count }
    }
}

/// A chunk of text: a contiguous run of characters together with its cached
/// character count and line-break count.
pub struct MeasuredString {
    pub string: String,
    pub char_count: usize,
    pub newline_count: usize,
}

impl MeasuredString {
    /// The cached counts agree with the text.
    pub open spec fn wf(self) -> bool {
        &&& self.char_count == self.string@.len()
        &&& self.newline_count == newlines(self.string@)
    }

    /// Wraps a run of text as a chunk, counting its characters and line
    /// breaks once.
    pub fn from(s: String) -> (r: MeasuredString)
        ensures
            r.string@ == s@,
            r.wf(),
    {
        let ghost full: Seq<char> = s@;
        let bytes_len = s.as_str().as_bytes().len();
        proof {
            lemma_char_le_byte(full);
        }
        let mut it = s.as_str().chars();
        let mut char_count: usize = 0;
        let mut newline_count: usize = 0;
        loop
            invariant
                char_count <= full.len() <= bytes_len,
                newline_count <= char_count,
                it.remaining() == full.skip(char_count as int),
                newline_count == newlines(full.take(char_count as int)),
            ensures
                char_count == full.len(),
                newline_count == newlines(full),
            decreases full.len() - char_count,
        {
            match it.next() {
                None => {
                    proof {
                        assert(full.skip(char_count as int).len() == 0);
                        assert(full.take(char_count as int) =~= full);
                    }
                    break ;
                },
                Some(c) => {
                    proof {
                        assert(full.skip(char_count as int).len() > 0);
                        assert(c == full[char_count as int]);
                        assert(full.take(char_count + 1).drop_last() =~= full.take(
                            char_count as int,
                        ));
                        assert(full.take(char_count + 1).last() == full[char_count as int]);
                        assert(full.skip(char_count as int).drop_first() =~= full.skip(
                            char_count + 1,
                        ));
                    }
                    if c == '\n' {
                        newline_count = newline_count + 1;
                    }
                    char_count = char_count + 1;
                },
            }
        }
        MeasuredString { string: s, char_count, newline_count }
    }

    /// Merges two chunks into one, concatenating the text and adding the
    /// cached counts. The combined byte length must be representable.
    pub fn merge(self, other: MeasuredString) -> (r: MeasuredString)
        requires
            self.wf(),
            other.wf(),
            encode_utf8(self.string@ + other.string@).len() <= usize::MAX,
        ensures
            r.string@ == self.string@ + other.string@,
            r.wf(),
    {
        proof {
            lemma_char_le_byte(self.string@ + other.string@);
            lemma_newlines_le_len(self.string@);
            lemma_newlines_le_len(other.string@);
            lemma_newlines_concat(self.string@, other.string@);
        }
        let char_count = self.char_count + other.char_count;
        let newline_count = self.newline_count + other.newline_count;
        let mut string = self.string;
        string.append(other.string.as_str());
        MeasuredString { string, char_count, newline_count }
    }
}

impl Measured<StringMeasure> for MeasuredString {
    open spec fn spec_measure(self) -> StringMeasure {
        StringMeasure {
            len: encode_utf8(self.string@).len() as usize,
            char_count: self.char_count,
            newline_count: self.newline_count,
        }
    }

    fn measure(&self) -> (r: StringMeasure) {
        StringMeasure {
            len: self.string.as_str().len(),
            char_count: self.char_count,
            newline_count: self.newline_count,
        }
    }
}

impl StringMeasure {
    /// True exactly on the zero measure.
    pub fn is_zero(&self) -> (r: bool)
        ensures
            r == (*self == StringMeasure::spec_zero()),
    {
        self.len == 0 && self.char_count == 0 && self.newline_count == 0
    }

    /// Reads off the measure of one chunk.
    pub fn from(s: &MeasuredString) -> (r: StringMeasure)
        ensures
            r == s.spec_measure(),
    {
        s.measure()
    }
}

/// The text represented by a sequence of chunks, in order.
pub open spec fn text_of(cs: Seq<MeasuredString>) -> Seq<char>
    decreases cs.len(),
{
    if cs.len() == 0 {
        Seq::empty()
    } else {
        text_of(cs.drop_last()) + cs.last().string@
    }
}

/// A one-chunk sequence represents that chunk's text.
pub proof fn lemma_text_of_singleton(c: MeasuredString)
    ensures
        text_of(seq![c]) == c.string@,
{
    let s = seq![c];
    assert(s.drop_last() =~= Seq::<MeasuredString>::empty());
    assert(s.last() == c);
    assert(text_of(s) == text_of(Seq::<MeasuredString>::empty()) + c.string@);
    assert(text_of(Seq::<MeasuredString>::empty()) == Seq::<char>::empty());
    assert(Seq::<char>::empty() + c.string@ =~= c.string@);
}

/// `text_of` distributes over concatenation of chunk sequences.
pub proof fn lemma_text_of_concat(a: Seq<MeasuredString>, b: Seq<MeasuredString>)
    ensures
        text_of(a + b) == text_of(a) + text_of(b),
    decreases b.len(),
{
    if b.len() == 0 {
        assert(a + b =~= a);
        assert(text_of(a) + text_of(b) =~= text_of(a));
    } else {
        assert((a + b).drop_last() =~= a + b.drop_last());
        assert((a + b).last() == b.last());
        lemma_text_of_concat(a, b.drop_last());
        assert(text_of(a) + (text_of(b.drop_last()) + b.last().string@) =~= (text_of(a) + text_of(
            b.drop_last(),
        )) + b.last().string@);
    }
}

/// Splitting off the first chunk splits the text at its end.
pub proof fn lemma_text_of_first(cs: Seq<MeasuredString>)
    requires
        cs.len() > 0,
    ensures
        text_of(cs) == cs[0].string@ + text_of(cs.drop_first()),
{
    assert(cs =~= seq![cs[0]] + cs.drop_first());
    lemma_text_of_concat(seq![cs[0]], cs.drop_first());
    lemma_text_of_singleton(cs[0]);
}

/// While the total byte length stays representable, the saturating sums in a
/// chunk sequence's measure are exact: the measure is precisely the byte
/// length, character count and line-break count of the represented text.
pub proof fn lemma_measure_exact(cs: Seq<MeasuredString>)
    requires
        forall|i: int| 0 <= i < cs.len() ==> (#[trigger] cs[i]).wf(),
        encode_utf8(text_of(cs)).len() <= usize::MAX,
    ensures
        seq_measure(cs) == (StringMeasure {
            len: encode_utf8(text_of(cs)).len() as usize,
            char_count: text_of(cs).len() as usize,
            newline_count: newlines(text_of(cs)) as usize,
        }),
    decreases cs.len(),
{
    if cs.len() == 0 {
        assert(encode_utf8(text_of(cs)).len() == 0);
    } else {
        let pre = cs.drop_last();
        let last = cs.last();
        assert(forall|i: int| 0 <= i < pre.len() ==> (#[trigger] pre[i]).wf());
        lemma_encode_concat(text_of(pre), last.string@);
        lemma_char_le_byte(text_of(pre));
        lemma_char_le_byte(last.string@);
        lemma_newlines_le_len(text_of(pre));
        lemma_newlines_le_len(last.string@);
        lemma_newlines_concat(text_of(pre), last.string@);
        lemma_measure_exact(pre);
        assert(seq_measure(cs) == seq_measure(pre).spec_combine(last.spec_measure()));
    }
}

/// The number of bytes a chunk's text occupies.
pub open spec fn chunk_byte_len(c: MeasuredString) -> nat {
    encode_utf8(c.string@).len()
}

/// Adjoining chunks whose combined byte length stays at or below this bound
/// are merged on concatenation, to bound fragmentation from small appends.
pub const CHUNK_SIZE: usize = 4096;

/// A sequence of text chunks held in a measure-augmented tree. The measure
/// of any prefix reports its byte length, character count and line-break
/// count without scanning the text.
pub struct Rope(pub SplayTree<StringMeasure, MeasuredString>);

impl Rope {
    /// The chunks, in order.
    pub open spec fn chunks(self) -> Seq<MeasuredString> {
        self.0.inorder()
    }

    /// The represented text.
    pub open spec fn text(self) -> Seq<char> {
        text_of(self.chunks())
    }

    /// The tree is well formed and every chunk carries correct counts and is
    /// non-empty.
    pub open spec fn wf(self) -> bool {
        &&& self.0.wf()
        &&& forall|i: int|
            0 <= i < self.chunks().len() ==> (#[trigger] self.chunks()[i]).wf()
        &&& forall|i: int|
            0 <= i < self.chunks().len() ==> (#[trigger] self.chunks()[i]).string@.len() > 0
    }

    /// The empty text.
    pub fn new() -> (r: Rope)
        ensures
            r.wf(),
            r.chunks() == Seq::<MeasuredString>::empty(),
            r.text() == Seq::<char>::empty(),
    {
        Rope(SplayTree::empty())
    }

    /// Builds a rope from a run of text: the empty tree for empty input,
    /// otherwise a single chunk.
    pub fn from(s: String) -> (r: Rope)
        ensures
            r.wf(),
            r.text() == s@,
            s@.len() == 0 ==> r.chunks().len() == 0,
            s@.len() > 0 ==> r.chunks().len() == 1 && r.chunks()[0].string@ == s@,
    {
        if s.as_str().is_empty() {
            proof {
                assert(s@ =~= Seq::<char>::empty());
            }
            Rope(SplayTree::empty())
        } else {
            let c = MeasuredString::from(s);
            let t = SplayTree::singleton(c);
            proof {
                lemma_text_of_singleton(c);
            }
            Rope(t)
        }
    }

    /// Reads the measure of the whole text from the root's cache.
    pub fn measure(&self) -> (r: StringMeasure)
        requires
            self.wf(),
        ensures
            r == seq_measure(self.chunks()),
    {
        self.0.measure()
    }

    /// Materializes the represented text in one output buffer.
    pub fn to_string(&self) -> (r: String)
        ensures
            r@ == self.text(),
    {
        let mut out = String::new();
        push_chunks(&self.0, &mut out);
        proof {
            assert(Seq::<char>::empty() + self.text() =~= self.text());
        }
        out
    }

    /// Appends `other`'s text after `self`'s. The two chunks adjoining the
    /// junction are merged into one when their combined byte length is at
    /// most `CHUNK_SIZE`; otherwise both are kept. All other chunks carry
    /// over unchanged.
    pub fn concatenate(self, other: Rope) -> (r: Rope)
        requires
            self.wf(),
            other.wf(),
        ensures
            r.wf(),
            r.text() == self.text() + other.text(),
            self.chunks().len() == 0 ==> r.chunks() == other.chunks(),
            other.chunks().len() == 0 ==> r.chunks() == self.chunks(),
            self.chunks().len() > 0 && other.chunks().len() > 0 ==> ({
                let a = self.chunks();
                let b = other.chunks();
                if chunk_byte_len(a.last()) + chunk_byte_len(b[0]) <= CHUNK_SIZE {
                    &&& r.chunks().len() == a.len() + b.len() - 1
                    &&& r.chunks() == a.drop_last() + seq![r.chunks()[a.len() - 1]]
                        + b.drop_first()
                    &&& r.chunks()[a.len() - 1].string@ == a.last().string@ + b[0].string@
                } else {
                    r.chunks() == a + b
                }
            }),
    {
        let Rope(left_tree) = self;
        let Rope(right_tree) = other;
        match (left_tree.unsnoc(), right_tree.uncons()) {
            (None, None) => {
                proof {
                    assert(other.chunks() =~= Seq::<MeasuredString>::empty());
                    assert(self.text() + other.text() =~= Seq::<char>::empty());
                }
                Rope::new()
            },
            (Some(lp), None) => {
                let (lt, lc) = lp;
                let single = SplayTree::singleton(lc);
                let t = SplayTree::concatenate(lt, single);
                proof {
                    assert(other.chunks() =~= Seq::<MeasuredString>::empty());
                    assert(t.inorder() =~= self.chunks());
                    assert(self.text() + other.text() =~= self.text());
                }
                Rope(t)
            },
            (None, Some(rp)) => {
                let (rc, rt) = rp;
                let single = SplayTree::singleton(rc);
                let t = SplayTree::concatenate(single, rt);
                proof {
                    assert(self.chunks() =~= Seq::<MeasuredString>::empty());
                    assert(t.inorder() =~= other.chunks());
                    assert(self.text() + other.text() =~= other.text());
                }
                Rope(t)
            },
            (Some(lp), Some(rp)) => {
                let (lt, lc) = lp;
                let (rc, rt) = rp;
                let ghost a = self.chunks();
                let ghost b = other.chunks();
                proof {
                    assert(a[a.len() - 1].wf() && a[a.len() - 1].string@.len() > 0);
                    assert(b[0].wf() && b[0].string@.len() > 0);
                    lemma_text_of_first(b);
                }
                let lc_len = lc.string.as_str().as_bytes().len();
                let rc_len = rc.string.as_str().as_bytes().len();
                if lc_len <= CHUNK_SIZE && rc_len <= CHUNK_SIZE - lc_len {
                    proof {
                        lemma_encode_concat(lc.string@, rc.string@);
                    }
                    let merged = lc.merge(rc);
                    let single = SplayTree::singleton(merged);
                    let t1 = SplayTree::concatenate(lt, single);
                    let t2 = SplayTree::concatenate(t1, rt);
                    proof {
                        assert(t2.inorder() =~= a.drop_last() + seq![merged] + b.drop_first());
                        assert(t2.inorder()[a.len() - 1] == merged);
                        lemma_text_of_concat(a.drop_last(), seq![merged]);
                        lemma_text_of_singleton(merged);
                        lemma_text_of_concat(a.drop_last() + seq![merged], b.drop_first());
                        assert((text_of(a.drop_last()) + (a.last().string@ + b[0].string@))
                            + text_of(b.drop_first()) =~= (text_of(a.drop_last())
                            + a.last().string@) + (b[0].string@ + text_of(b.drop_first())));
                    }
                    Rope(t2)
                } else {
                    let s1 = SplayTree::singleton(lc);
                    let s2 = SplayTree::singleton(rc);
                    let mid = SplayTree::concatenate(s1, s2);
                    let t1 = SplayTree::concatenate(lt, mid);
                    let t2 = SplayTree::concatenate(t1, rt);
                    proof {
                        assert(t2.inorder() =~= a + b);
                        lemma_text_of_concat(a, b);
                    }
                    Rope(t2)
                }
            },
        }
    }
}

/// Appends the text of every chunk of `t`, in order, onto `out`.
fn push_chunks(t: &SplayTree<StringMeasure, MeasuredString>, out: &mut String)
    ensures
        final(out)@ == old(out)@ + text_of(t.inorder()),
    decreases *t,
{
    match t {
        SplayTree::Leaf => {
            proof {
                assert(out@ + text_of(t.inorder()) =~= out@);
            }
        },
        SplayTree::Fork(f) => {
            proof {
                assert(t.inorder() == f.left.inorder() + seq![f.element] + f.right.inorder());
                lemma_text_of_concat(f.left.inorder(), seq![f.element]);
                lemma_text_of_singleton(f.element);
                lemma_text_of_concat(f.left.inorder() + seq![f.element], f.right.inorder());
            }
            push_chunks(&f.left, out);
            out.append(f.element.string.as_str());
            push_chunks(&f.right, out);
            proof {
                assert(out@ =~= old(out)@ + text_of(t.inorder()));
            }
        },
    }
}

/// A split predicate over text measures: true once the running prefix holds
/// at least `threshold` bytes. Monotonic over prefix accumulation, since
/// byte counts only grow along a prefix.
pub struct LenAtLeast {
    pub threshold: usize,
}

impl MeasurePredicate<StringMeasure> for LenAtLeast {
    open spec fn spec_test(self, m: StringMeasure) -> bool {
        m.len >= self.threshold
    }

    fn test(&self, m: &StringMeasure) -> (b: bool) {
        m.len >= self.threshold
    }
}

} // verus!
