//! The complete observable stream X = (x_0, ..., x_{n-1}) of a corpus, its
//! reconstruction, its counts, and the completeness verification.

use vstd::prelude::*;
use vstd::utf8::encode_utf8;
use crate::observe::{
    CaseState, CharClass, StreamPosition, observed_position, case_of, class_of, class_index,
    case_index, utf8_width, utf8_len, CLASS_COUNT, CASE_COUNT,
};
use crate::tally::{occurrences, key_view, keys_below, tally};

verus! {

/// The complete observable communication stream.
#[derive(Debug)]
pub struct CompleteStream {
    pub positions: Vec<StreamPosition>,
    pub source_files: Vec<String>,
    /// Character count per file.
    pub file_lengths: Vec<usize>,
}

// ── Mathematical model of a stream built from texts ──────────────────────

/// Number of bytes in the UTF-8 encoding of the first `k` characters of `text`.
pub open spec fn byte_offset_in(text: Seq<char>, k: int) -> nat {
    encode_utf8(text.take(k)).len()
}

/// The positions that one file contributes: file index `file`, first
/// corpus-global position `start`.
pub open spec fn file_block(text: Seq<char>, file: nat, start: nat) -> Seq<StreamPosition> {
    Seq::new(
        text.len(),
        |k: int|
            observed_position(
                (start + k) as usize,
                text[k],
                byte_offset_in(text, k) as usize,
                file as usize,
            ),
    )
}

/// Total number of characters in a list of texts.
pub open spec fn total_chars(texts: Seq<Seq<char>>) -> nat
    decreases texts.len(),
{
    if texts.len() == 0 {
        0
    } else {
        total_chars(texts.drop_last()) + texts.last().len()
    }
}

/// The stream of a list of texts: the blocks of the files, one after another.
pub open spec fn stream_of(texts: Seq<Seq<char>>) -> Seq<StreamPosition>
    decreases texts.len(),
{
    if texts.len() == 0 {
        seq![]
    } else {
        stream_of(texts.drop_last()) + file_block(
            texts.last(),
            (texts.len() - 1) as nat,
            total_chars(texts.drop_last()),
        )
    }
}

/// The texts, concatenated in order.
pub open spec fn concat_texts(texts: Seq<Seq<char>>) -> Seq<char>
    decreases texts.len(),
{
    if texts.len() == 0 {
        seq![]
    } else {
        concat_texts(texts.drop_last()) + texts.last()
    }
}

/// The characters of a sequence of positions, in order.
pub open spec fn chars_of(ps: Seq<StreamPosition>) -> Seq<char> {
    ps.map_values(|p: StreamPosition| p.character)
}

/// The characters of the positions that come from file `f`, in order.
pub open spec fn file_chars(ps: Seq<StreamPosition>, f: int) -> Seq<char>
    decreases ps.len(),
{
    if ps.len() == 0 {
        seq![]
    } else if ps.last().source_file_index == f {
        file_chars(ps.drop_last(), f).push(ps.last().character)
    } else {
        file_chars(ps.drop_last(), f)
    }
}

/// The texts of a list of (name, text) pairs.
pub open spec fn named_texts(files: Seq<(&str, &str)>) -> Seq<Seq<char>> {
    Seq::new(files.len(), |i: int| files[i].1@)
}

/// The texts of a list of (name, owned text) pairs.
pub open spec fn owned_texts(files: Seq<(&str, String)>) -> Seq<Seq<char>> {
    Seq::new(files.len(), |i: int| files[i].1@)
}

/// Sum of a sequence of counts.
pub open spec fn sum_counts(s: Seq<usize>) -> nat
    decreases s.len(),
{
    if s.len() == 0 {
        0
    } else {
        sum_counts(s.drop_last()) + s.last() as nat
    }
}

/// The class index of every position.
pub open spec fn class_keys(ps: Seq<StreamPosition>) -> Seq<nat> {
    ps.map_values(|p: StreamPosition| class_index(p.char_class))
}

/// The case index of every position.
pub open spec fn case_keys(ps: Seq<StreamPosition>) -> Seq<nat> {
    ps.map_values(|p: StreamPosition| case_index(p.case_state))
}

/// A well-formed stream over `nfiles` files: positions are numbered by their
/// index, every position holds the observations of its own character, and the
/// files follow each other without interleaving.
pub open spec fn stream_wf(ps: Seq<StreamPosition>, nfiles: nat) -> bool {
    &&& forall|k: int| 0 <= k < ps.len() ==> (#[trigger] ps[k]).position == k
    &&& forall|k: int|
        0 <= k < ps.len() ==> (#[trigger] ps[k]).case_state == case_of(ps[k].character)
            && ps[k].char_class == class_of(ps[k].character)
    &&& forall|k: int| 0 <= k < ps.len() ==> (#[trigger] ps[k]).source_file_index < nfiles
    &&& forall|a: int, b: int|
        0 <= a <= b < ps.len() ==> (#[trigger] ps[a]).source_file_index
            <= (#[trigger] ps[b]).source_file_index
}

// ── Lemmas on UTF-8 lengths and on the model ─────────────────────────────

proof fn lemma_encode_append(a: Seq<char>, b: Seq<char>)
    ensures
        encode_utf8(a + b) == encode_utf8(a) + encode_utf8(b),
    decreases a.len(),
{
    if a.len() == 0 {
        assert(a + b =~= b);
        assert(encode_utf8(a) =~= Seq::<u8>::empty());
        assert(encode_utf8(a) + encode_utf8(b) =~= encode_utf8(b));
    } else {
        assert((a + b).drop_first() =~= a.drop_first() + b);
        assert((a + b)[0] == a[0]);
        lemma_encode_append(a.drop_first(), b);
        assert(encode_utf8(a + b) =~= encode_utf8(a) + encode_utf8(b));
    }
}

/// One more character adds its UTF-8 width to the byte offset.
pub proof fn lemma_byte_offset_step(text: Seq<char>, k: int)
    requires
        0 <= k < text.len(),
    ensures
        byte_offset_in(text, k + 1) == byte_offset_in(text, k) + utf8_width(text[k]),
        byte_offset_in(text, k + 1) <= encode_utf8(text).len(),
{
    let one = seq![text[k]];
    assert(text.take(k + 1) =~= text.take(k) + one);
    lemma_encode_append(text.take(k), one);
    assert(one.drop_first() =~= Seq::<char>::empty());
    assert(encode_utf8(one) =~= vstd::utf8::encode_scalar(text[k] as u32) + encode_utf8(
        Seq::<char>::empty(),
    ));
    assert(encode_utf8(one) =~= vstd::utf8::encode_scalar(text[k] as u32));
    assert(text =~= text.take(k + 1) + text.skip(k + 1));
    lemma_encode_append(text.take(k + 1), text.skip(k + 1));
}

proof fn lemma_total_chars_take(texts: Seq<Seq<char>>, f: int)
    requires
        0 <= f < texts.len(),
    ensures
        total_chars(texts.take(f + 1)) == total_chars(texts.take(f)) + texts[f].len(),
        total_chars(texts.take(f + 1)) <= total_chars(texts),
        stream_of(texts.take(f + 1)) == stream_of(texts.take(f)) + file_block(
            texts[f],
            f as nat,
            total_chars(texts.take(f)),
        ),
    decreases texts.len(),
{
    assert(texts.take(f + 1).drop_last() =~= texts.take(f));
    if f + 1 < texts.len() {
        lemma_total_chars_take(texts.drop_last(), f);
        assert(texts.drop_last().take(f + 1) =~= texts.take(f + 1));
        assert(texts.drop_last().take(f) =~= texts.take(f));
    } else {
        assert(texts.take(f + 1) =~= texts);
    }
}

/// The model stream has one position per character of the texts.
pub proof fn lemma_stream_len(texts: Seq<Seq<char>>)
    ensures
        stream_of(texts).len() == total_chars(texts),
    decreases texts.len(),
{
    if texts.len() > 0 {
        lemma_stream_len(texts.drop_last());
    }
}

// ── Laws of the model ─────────────────────────────────────────────────────

/// Reconstruction invariant R⁻¹(R(X)) = X: reading the characters of the
/// stream built from some texts gives back the texts, concatenated, and there
/// is exactly one position per character.
pub proof fn law_reconstruction(texts: Seq<Seq<char>>)
    ensures
        chars_of(stream_of(texts)) == concat_texts(texts),
        stream_of(texts).len() == total_chars(texts),
        concat_texts(texts).len() == total_chars(texts),
    decreases texts.len(),
{
    lemma_stream_len(texts);
    if texts.len() > 0 {
        let init = texts.drop_last();
        law_reconstruction(init);
        let blk = file_block(texts.last(), (texts.len() - 1) as nat, total_chars(init));
        assert(chars_of(blk) =~= texts.last());
        assert(chars_of(stream_of(init) + blk) =~= chars_of(stream_of(init)) + chars_of(blk));
    }
}

proof fn lemma_file_chars_append(a: Seq<StreamPosition>, b: Seq<StreamPosition>, f: int)
    ensures
        file_chars(a + b, f) == file_chars(a, f) + file_chars(b, f),
    decreases b.len(),
{
    if b.len() == 0 {
        assert(a + b =~= a);
        assert(file_chars(a, f) + file_chars(b, f) =~= file_chars(a, f));
    } else {
        assert((a + b).drop_last() =~= a + b.drop_last());
        lemma_file_chars_append(a, b.drop_last(), f);
        if b.last().source_file_index == f {
            assert(file_chars(a + b, f) =~= file_chars(a, f) + file_chars(b, f));
        }
    }
}

/// Dropping the last character of a file drops the last position of its block.
pub proof fn lemma_block_drop_last(text: Seq<char>, file: nat, start: nat)
    requires
        text.len() > 0,
    ensures
        file_block(text, file, start).drop_last() == file_block(text.drop_last(), file, start),
{
    let t = text.drop_last();
    assert forall|k: int| 0 <= k < t.len() implies byte_offset_in(t, k) == byte_offset_in(text, k) by {
        assert(t.take(k) =~= text.take(k));
    }
    assert(file_block(text, file, start).drop_last() =~= file_block(t, file, start));
}

proof fn lemma_file_chars_block(text: Seq<char>, file: nat, start: nat, f: int)
    requires
        file <= usize::MAX,
    ensures
        file_chars(file_block(text, file, start), f) == if file == f {
            text
        } else {
            Seq::<char>::empty()
        },
    decreases text.len(),
{
    let blk = file_block(text, file, start);
    if text.len() > 0 {
        let t = text.drop_last();
        lemma_file_chars_block(t, file, start, f);
        assert forall|k: int| 0 <= k < t.len() implies byte_offset_in(t, k) == byte_offset_in(
            text,
            k,
        ) by {
            assert(t.take(k) =~= text.take(k));
        }
        assert(blk.drop_last() =~= file_block(t, file, start));
        if file == f {
            assert(file_chars(blk, f) =~= text);
        } else {
            assert(file_chars(blk, f) =~= Seq::<char>::empty());
        }
    } else {
        assert(file_chars(blk, f) =~= Seq::<char>::empty());
    }
}

/// Per-file reconstruction: the characters of the stream that come from file
/// `f` are exactly the text of file `f`, and a file index with no text has no
/// characters.
pub proof fn law_file_reconstruction(texts: Seq<Seq<char>>, f: int)
    requires
        texts.len() <= usize::MAX,
    ensures
        0 <= f < texts.len() ==> file_chars(stream_of(texts), f) == texts[f],
        !(0 <= f < texts.len()) ==> file_chars(stream_of(texts), f) == Seq::<char>::empty(),
    decreases texts.len(),
{
    if texts.len() == 0 {
        assert(file_chars(stream_of(texts), f) =~= Seq::<char>::empty());
    } else {
        let init = texts.drop_last();
        law_file_reconstruction(init, f);
        let last = (texts.len() - 1) as nat;
        let blk = file_block(texts.last(), last, total_chars(init));
        lemma_file_chars_append(stream_of(init), blk, f);
        lemma_file_chars_block(texts.last(), last, total_chars(init), f);
        if 0 <= f < texts.len() - 1 {
            assert(init[f] == texts[f]);
            assert(file_chars(stream_of(texts), f) =~= texts[f]);
        } else if f == texts.len() - 1 {
            assert(file_chars(stream_of(texts), f) =~= texts[f]);
        } else {
            assert(file_chars(stream_of(texts), f) =~= Seq::<char>::empty());
        }
    }
}

/// The file-by-file reconstructions, laid end to end, give the whole
/// reconstruction.
pub proof fn law_files_concat(texts: Seq<Seq<char>>)
    requires
        texts.len() <= usize::MAX,
    ensures
        concat_texts(Seq::new(texts.len(), |f: int| file_chars(stream_of(texts), f))) == chars_of(
            stream_of(texts),
        ),
{
    let per_file = Seq::new(texts.len(), |f: int| file_chars(stream_of(texts), f));
    assert forall|f: int| 0 <= f < texts.len() implies #[trigger] per_file[f] == texts[f] by {
        law_file_reconstruction(texts, f);
    }
    assert(per_file =~= texts);
    law_reconstruction(texts);
}

pub proof fn lemma_stream_pointwise(texts: Seq<Seq<char>>)
    requires
        texts.len() <= usize::MAX,
        total_chars(texts) <= usize::MAX,
    ensures
        forall|k: int|
            0 <= k < stream_of(texts).len() ==> {
                let p = #[trigger] stream_of(texts)[k];
                &&& p.position == k
                &&& p.case_state == case_of(p.character)
                &&& p.char_class == class_of(p.character)
                &&& p.source_file_index < texts.len()
            },
    decreases texts.len(),
{
    lemma_stream_len(texts);
    if texts.len() > 0 {
        let init = texts.drop_last();
        lemma_stream_len(init);
        lemma_stream_pointwise(init);
        let ps = stream_of(texts);
        let a = stream_of(init);
        let blk = file_block(texts.last(), (texts.len() - 1) as nat, total_chars(init));
        assert forall|k: int| 0 <= k < ps.len() implies {
            let p = #[trigger] ps[k];
            &&& p.position == k
            &&& p.case_state == case_of(p.character)
            &&& p.char_class == class_of(p.character)
            &&& p.source_file_index < texts.len()
        } by {
            if k >= a.len() {
                assert(ps[k] == blk[k - a.len()]);
            } else {
                assert(ps[k] == a[k]);
            }
        }
    }
}

proof fn lemma_stream_sorted(texts: Seq<Seq<char>>)
    requires
        texts.len() <= usize::MAX,
        total_chars(texts) <= usize::MAX,
    ensures
        forall|x: int, y: int|
            0 <= x <= y < stream_of(texts).len() ==> (#[trigger] stream_of(texts)[x]).source_file_index
                <= (#[trigger] stream_of(texts)[y]).source_file_index,
    decreases texts.len(),
{
    lemma_stream_len(texts);
    if texts.len() > 0 {
        let init = texts.drop_last();
        lemma_stream_len(init);
        lemma_stream_sorted(init);
        lemma_stream_pointwise(init);
        let ps = stream_of(texts);
        let a = stream_of(init);
        let blk = file_block(texts.last(), (texts.len() - 1) as nat, total_chars(init));
        assert forall|x: int, y: int|
            0 <= x <= y < ps.len() implies (#[trigger] ps[x]).source_file_index
            <= (#[trigger] ps[y]).source_file_index by {
            if x >= a.len() {
                assert(ps[x] == blk[x - a.len()]);
                assert(ps[y] == blk[y - a.len()]);
            } else if y >= a.len() {
                assert(ps[x] == a[x]);
                assert(ps[y] == blk[y - a.len()]);
            } else {
                assert(ps[x] == a[x]);
                assert(ps[y] == a[y]);
            }
        }
    }
}

/// The stream built from texts is well formed: numbered by index, observed
/// from its own characters, and file by file in order.
pub proof fn law_stream_wf(texts: Seq<Seq<char>>)
    requires
        texts.len() <= usize::MAX,
        total_chars(texts) <= usize::MAX,
    ensures
        stream_wf(stream_of(texts), texts.len()),
{
    lemma_stream_pointwise(texts);
    lemma_stream_sorted(texts);
    let ps = stream_of(texts);
    assert forall|k: int| 0 <= k < ps.len() implies (#[trigger] ps[k]).position == k by {}
    assert forall|k: int| 0 <= k < ps.len() implies (#[trigger] ps[k]).source_file_index < texts.len() by {}
}

// ── Executable stream ─────────────────────────────────────────────────────

/// Appends a character to a string with `String::push`. Trusted, not proved:
/// the contract claims what std documents for it, that afterwards the string
/// holds its former characters followed by `c`.
#[verifier::external_body]
pub(crate) fn push_char(s: &mut String, c: char)
    ensures
        final(s)@ == old(s)@.push(c),
{
    s.push(c);
}

impl CompleteStream {
    /// Build the complete stream from (name, text) pairs: every character of
    /// every text becomes exactly one position, in order.
    pub fn from_texts(files: &[(&str, &str)]) -> (r: CompleteStream)
        requires
            total_chars(named_texts(files@)) <= usize::MAX,
            forall|f: int|
                0 <= f < files@.len() ==> encode_utf8(#[trigger] files@[f].1@).len() <= usize::MAX,
        ensures
            r.positions@ == stream_of(named_texts(files@)),
            r.source_files@.len() == files@.len(),
            forall|f: int| 0 <= f < files@.len() ==> (#[trigger] r.source_files@[f])@ == files@[f].0@,
            r.file_lengths@.len() == files@.len(),
            forall|f: int|
                0 <= f < files@.len() ==> #[trigger] r.file_lengths@[f] == files@[f].1@.len(),
    {
        let ghost texts = named_texts(files@);
        let mut positions: Vec<StreamPosition> = Vec::new();
        let mut source_files: Vec<String> = Vec::new();
        let mut file_lengths: Vec<usize> = Vec::new();
        let mut global_pos: usize = 0;
        let mut file_index: usize = 0;
        assert(texts.take(0) =~= Seq::<Seq<char>>::empty());
        while file_index < files.len()
            invariant
                texts == named_texts(files@),
                total_chars(texts) <= usize::MAX,
                forall|f: int|
                    0 <= f < files@.len() ==> encode_utf8(#[trigger] files@[f].1@).len()
                        <= usize::MAX,
                file_index <= files@.len(),
                positions@ == stream_of(texts.take(file_index as int)),
                global_pos == total_chars(texts.take(file_index as int)),
                source_files@.len() == file_index,
                forall|f: int| 0 <= f < file_index ==> (#[trigger] source_files@[f])@ == files@[f].0@,
                file_lengths@.len() == file_index,
                forall|f: int| 0 <= f < file_index ==> #[trigger] file_lengths@[f] == files@[f].1@.len(),
            decreases files@.len() - file_index,
        {
            let name: &str = files[file_index].0;
            let text: &str = files[file_index].1;
            proof {
                lemma_total_chars_take(texts, file_index as int);
            }
            let ghost start = global_pos;
            let ghost base = positions@;
            let ghost blk = file_block(text@, file_index as nat, start as nat);
            let mut byte_offset: usize = 0;
            let mut char_count: usize = 0;
            assert(text@.take(0) =~= Seq::<char>::empty());
            for c in it: text.chars()
                invariant
                    it.seq() == text@,
                    char_count == it.index(),
                    char_count <= text@.len(),
                    start + text@.len() <= usize::MAX,
                    encode_utf8(text@).len() <= usize::MAX,
                    global_pos == start + char_count,
                    byte_offset == byte_offset_in(text@, char_count as int),
                    blk == file_block(text@, file_index as nat, start as nat),
                    positions@ == base + blk.take(char_count as int),
            {
                proof {
                    lemma_byte_offset_step(text@, char_count as int);
                }
                let p = StreamPosition::new(global_pos, c, byte_offset, file_index);
                positions.push(p);
                assert(blk.take(char_count as int + 1) =~= blk.take(char_count as int).push(p));
                global_pos = global_pos + 1;
                char_count = char_count + 1;
                byte_offset = byte_offset + utf8_len(c);
            }
            assert(blk.take(text@.len() as int) =~= blk);
            source_files.push(name.to_owned());
            file_lengths.push(char_count);
            file_index = file_index + 1;
        }
        assert(texts.take(files@.len() as int) =~= texts);
        CompleteStream { positions, source_files, file_lengths }
    }

    /// Total number of positions in the stream.
    pub fn len(&self) -> (r: usize)
        ensures
            r == self.positions@.len(),
    {
        self.positions.len()
    }

    /// Reconstruct the text from the stream: the characters of all positions, in order.
    pub fn reconstruct(&self) -> (r: String)
        ensures
            r@ == chars_of(self.positions@),
    {
        let mut s = String::new();
        let mut i: usize = 0;
        while i < self.positions.len()
            invariant
                i <= self.positions@.len(),
                s@ == chars_of(self.positions@.take(i as int)),
            decreases self.positions@.len() - i,
        {
            push_char(&mut s, self.positions[i].character);
            assert(chars_of(self.positions@.take(i as int + 1)) =~= chars_of(
                self.positions@.take(i as int),
            ).push(self.positions@[i as int].character));
            i += 1;
        }
        assert(self.positions@.take(self.positions@.len() as int) =~= self.positions@);
        s
    }

    /// Reconstruct the text of one source file: the characters of the positions
    /// whose source file index is `file_index`, in order.
    pub fn reconstruct_file(&self, file_index: usize) -> (r: String)
        ensures
            r@ == file_chars(self.positions@, file_index as int),
    {
        let mut s = String::new();
        let mut i: usize = 0;
        while i < self.positions.len()
            invariant
                i <= self.positions@.len(),
                s@ == file_chars(self.positions@.take(i as int), file_index as int),
            decreases self.positions@.len() - i,
        {
            assert(self.positions@.take(i as int + 1).drop_last() =~= self.positions@.take(
                i as int,
            ));
            if self.positions[i].source_file_index == file_index {
                push_char(&mut s, self.positions[i].character);
            }
            i += 1;
        }
        assert(self.positions@.take(self.positions@.len() as int) =~= self.positions@);
        s
    }

    /// Number of positions that come from file `file_index`.
    pub fn file_position_count(&self, file_index: usize) -> (r: usize)
        ensures
            r == file_chars(self.positions@, file_index as int).len(),
    {
        let mut n: usize = 0;
        let mut i: usize = 0;
        while i < self.positions.len()
            invariant
                i <= self.positions@.len(),
                n == file_chars(self.positions@.take(i as int), file_index as int).len(),
                n <= i,
            decreases self.positions@.len() - i,
        {
            assert(self.positions@.take(i as int + 1).drop_last() =~= self.positions@.take(
                i as int,
            ));
            if self.positions[i].source_file_index == file_index {
                n += 1;
            }
            i += 1;
        }
        assert(self.positions@.take(self.positions@.len() as int) =~= self.positions@);
        n
    }

    /// Count positions by character class: entry `k` is the number of
    /// positions whose class has index `k` (see `CharClass::index`).
    pub fn class_counts(&self) -> (r: Vec<usize>)
        ensures
            r@.len() == CLASS_COUNT,
            forall|k: int|
                0 <= k < CLASS_COUNT ==> #[trigger] r@[k] == occurrences(
                    class_keys(self.positions@),
                    k as nat,
                ),
    {
        let mut keys: Vec<usize> = Vec::new();
        let mut i: usize = 0;
        while i < self.positions.len()
            invariant
                i <= self.positions@.len(),
                key_view(keys@) == class_keys(self.positions@.take(i as int)),
                keys_below(key_view(keys@), CLASS_COUNT as nat),
            decreases self.positions@.len() - i,
        {
            let k = self.positions[i].char_class.index();
            let ghost prev = keys@;
            keys.push(k);
            assert(keys@.drop_last() =~= prev);
            assert(class_keys(self.positions@.take(i as int + 1)) =~= class_keys(
                self.positions@.take(i as int),
            ).push(k as nat));
            assert(key_view(keys@) =~= key_view(keys@.drop_last()).push(k as nat));
            assert forall|j: int| 0 <= j < key_view(keys@).len() implies #[trigger] key_view(keys@)[j] < CLASS_COUNT by {
                if j < key_view(keys@).len() - 1 {
                    assert(key_view(keys@)[j] == key_view(keys@.drop_last())[j]);
                } else {
                    assert(key_view(keys@)[j] == keys@[j] as nat);
                    assert(keys@[j] == k);
                }
            }
            i += 1;
        }
        assert(self.positions@.take(self.positions@.len() as int) =~= self.positions@);
        tally(&keys, CLASS_COUNT)
    }

    /// Count positions by case state: entry `k` is the number of positions
    /// whose case state has index `k` (see `CaseState::index`).
    pub fn case_counts(&self) -> (r: Vec<usize>)
        ensures
            r@.len() == CASE_COUNT,
            forall|k: int|
                0 <= k < CASE_COUNT ==> #[trigger] r@[k] == occurrences(
                    case_keys(self.positions@),
                    k as nat,
                ),
    {
        let mut keys: Vec<usize> = Vec::new();
        let mut i: usize = 0;
        while i < self.positions.len()
            invariant
                i <= self.positions@.len(),
                key_view(keys@) == case_keys(self.positions@.take(i as int)),
                keys_below(key_view(keys@), CASE_COUNT as nat),
            decreases self.positions@.len() - i,
        {
            let k = self.positions[i].case_state.index();
            let ghost prev = keys@;
            keys.push(k);
            assert(keys@.drop_last() =~= prev);
            assert(case_keys(self.positions@.take(i as int + 1)) =~= case_keys(
                self.positions@.take(i as int),
            ).push(k as nat));
            assert(key_view(keys@) =~= key_view(keys@.drop_last()).push(k as nat));
            assert forall|j: int| 0 <= j < key_view(keys@).len() implies #[trigger] key_view(keys@)[j] < CASE_COUNT by {
                if j < key_view(keys@).len() - 1 {
                    assert(key_view(keys@)[j] == key_view(keys@.drop_last())[j]);
                } else {
                    assert(key_view(keys@)[j] == keys@[j] as nat);
                    assert(keys@[j] == k);
                }
            }
            i += 1;
        }
        assert(self.positions@.take(self.positions@.len() as int) =~= self.positions@);
        tally(&keys, CASE_COUNT)
    }
}

} // verus!
