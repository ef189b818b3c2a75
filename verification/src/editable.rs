//! A string with a cursor and an IME composing region.
//!
//! The full text is `before + commit + compose + after`; the cursor sits
//! before `after`. Cursor motion is counted in glyphs, which need not
//! match characters (ligatures, multi-char emoji), so byte indexes (idx)
//! and glyph positions (pos) are converted through the shaped glyphs.

use vstd::prelude::*;
use vstd::string::StringExecFns;
use vstd::utf8::{encode_utf8, is_char_boundary};

use crate::strs::{
    lemma_boundary_at_prefix, lemma_char_count_le_bytes, lemma_encode_concat, owned, split_at_byte, str_byte_len, utf8_len,
};

verus! {

pub type TextPos = usize;

pub type TextIdx = usize;

/// Whether an editor holds one line or many.
#[derive(Debug, Clone, Copy, PartialEq, Eq, Structural)]
pub enum BaseEditType {
    SingleLine,
    MultiLine,
}

/// One shaped glyph: the part of the text it renders.
#[derive(Clone, Debug)]
pub struct Glyph {
    pub substr: String,
}

/// The text a run of glyphs renders.
pub open spec fn glyph_text(gs: Seq<Glyph>) -> Seq<char>
    decreases gs.len(),
{
    if gs.len() == 0 {
        Seq::empty()
    } else {
        glyph_text(gs.drop_last()) + gs.last().substr@
    }
}

/// The byte index where glyph `i` starts.
pub open spec fn glyph_start(gs: Seq<Glyph>, i: int) -> nat {
    utf8_len(glyph_text(gs.take(i)))
}

/// The byte index where glyph `i` ends.
pub open spec fn glyph_end(gs: Seq<Glyph>, i: int) -> nat {
    glyph_start(gs, i + 1)
}

/// The text of the first `i + 1` glyphs extends that of the first `i`.
pub proof fn lemma_glyph_text_step(gs: Seq<Glyph>, i: int)
    requires
        0 <= i < gs.len(),
    ensures
        glyph_text(gs.take(i + 1)) == glyph_text(gs.take(i)) + gs[i].substr@,
        glyph_start(gs, i + 1) == glyph_start(gs, i) + utf8_len(gs[i].substr@),
{
    assert(gs.take(i + 1).drop_last() =~= gs.take(i));
    lemma_encode_concat(glyph_text(gs.take(i)), gs[i].substr@);
}

/// Glyph text splits at any glyph position.
pub proof fn lemma_glyph_text_split(gs: Seq<Glyph>, i: int)
    requires
        0 <= i <= gs.len(),
    ensures
        glyph_text(gs) == glyph_text(gs.take(i)) + glyph_text(gs.skip(i)),
    decreases gs.len() - i,
{
    if i == gs.len() {
        assert(gs.take(i) =~= gs);
        assert(gs.skip(i) =~= Seq::<Glyph>::empty());
        assert(glyph_text(gs.take(i)) + glyph_text(gs.skip(i)) =~= glyph_text(gs));
    } else {
        lemma_glyph_text_split(gs, i + 1);
        lemma_glyph_text_step(gs, i);
        lemma_glyph_text_skip(gs, i);
        assert(glyph_text(gs) =~= glyph_text(gs.take(i)) + glyph_text(gs.skip(i)));
    }
}

proof fn lemma_glyph_text_skip(gs: Seq<Glyph>, i: int)
    requires
        0 <= i < gs.len(),
    ensures
        glyph_text(gs.skip(i)) == gs[i].substr@ + glyph_text(gs.skip(i + 1)),
    decreases gs.len() - i,
{
    let s = gs.skip(i);
    if i == gs.len() - 1 {
        assert(s.drop_last() =~= Seq::<Glyph>::empty());
        assert(gs.skip(i + 1) =~= Seq::<Glyph>::empty());
        assert(glyph_text(s) =~= gs[i].substr@ + glyph_text(gs.skip(i + 1)));
    } else {
        let t = gs.drop_last();
        lemma_glyph_text_skip(t, i);
        assert(s.drop_last() =~= t.skip(i));
        assert(t.skip(i + 1) =~= gs.skip(i + 1).drop_last());
        assert(gs.skip(i + 1).last() == gs.last());
        assert(s.last() == gs.last());
        assert(glyph_text(s) =~= gs[i].substr@ + glyph_text(gs.skip(i + 1)));
    }
}

/// Glyph starts only grow.
pub proof fn lemma_glyph_start_mono(gs: Seq<Glyph>, i: int, j: int)
    requires
        0 <= i <= j <= gs.len(),
    ensures
        glyph_start(gs, i) <= glyph_start(gs, j),
    decreases j - i,
{
    if i < j {
        lemma_glyph_start_mono(gs, i, j - 1);
        lemma_glyph_text_step(gs, j - 1);
    }
}

/// Rendered glyphs of an editable, with the underline (composing region)
/// in glyph positions.
#[derive(Clone)]
pub struct RenderedEditable {
    pub glyphs: Vec<Glyph>,
    pub under_start: TextPos,
    pub under_end: TextPos,
}

/// The glyph that holds byte `idx`: the first glyph ending after it, or
/// the glyph count when `idx` is at or past the end.
pub open spec fn is_pos_of_idx(gs: Seq<Glyph>, idx: int, pos: int) -> bool {
    &&& 0 <= pos <= gs.len()
    &&& forall|j: int| 0 <= j < pos ==> #[trigger] glyph_end(gs, j) <= idx
    &&& pos < gs.len() ==> idx < glyph_end(gs, pos)
}

/// The glyph holding byte `idx` (see [`is_pos_of_idx`]).
pub open spec fn pos_of(gs: Seq<Glyph>, idx: int) -> int {
    choose|p: int| is_pos_of_idx(gs, idx, p)
}

/// A cursor move stays among the glyph positions, and a forward move by
/// `a` then by `b` lands where one by `a + b` does; within the text a
/// move goes exactly `dir` glyphs, and a back move off the start does
/// not move.
pub proof fn lemma_moved_pos(cp: int, dir: int, n: int)
    requires
        0 <= cp <= n,
        dir < 0 && cp > 0 ==> cp + dir >= 0,
    ensures
        0 <= moved_pos(cp, dir, n) <= n,
        dir >= 0 ==> cp <= moved_pos(cp, dir, n),
        dir >= 0 && cp + dir <= n ==> moved_pos(cp, dir, n) - cp == dir,
        dir >= 0 && cp + dir >= n ==> moved_pos(cp, dir, n) == n,
        dir < 0 && cp > 0 ==> cp - moved_pos(cp, dir, n) == -dir,
        dir < 0 && cp == 0 ==> moved_pos(cp, dir, n) == 0,
        forall|a: int, b: int|
            #![trigger moved_pos(moved_pos(cp, a, n), b, n)]
            0 <= a && 0 <= b ==> moved_pos(moved_pos(cp, a, n), b, n) == moved_pos(cp, a + b, n),
{
}

/// Only one glyph position holds a byte.
pub proof fn lemma_pos_of_idx_unique(gs: Seq<Glyph>, idx: int, p: int)
    requires
        is_pos_of_idx(gs, idx, p),
    ensures
        pos_of(gs, idx) == p,
{
    let q = pos_of(gs, idx);
    assert(is_pos_of_idx(gs, idx, q));
    if q < p {
        assert(glyph_end(gs, q) <= idx);
    } else if p < q {
        assert(glyph_end(gs, p) <= idx);
    }
}

/// Where a cursor at glyph `cp` lands after moving `dir` glyphs among `n`:
/// back moves only off the start, forward moves stop at the end.
pub open spec fn moved_pos(cp: int, dir: int, n: int) -> int {
    if dir < 0 {
        if cp > 0 {
            cp + dir
        } else {
            cp
        }
    } else if cp + dir > n {
        n
    } else {
        cp + dir
    }
}

/// A glyph position's byte index leads back to the position: over glyphs
/// that each render some text, converting a position to its index and
/// the index back to a position is the identity (positions past the end
/// land on the end).
pub proof fn lemma_pos_idx_roundtrip(gs: Seq<Glyph>, pos: int)
    requires
        0 <= pos,
        forall|i: int| 0 <= i < gs.len() ==> (#[trigger] gs[i]).substr@.len() > 0,
    ensures
        pos_of(gs, idx_of_pos(gs, pos) as int) == if pos < gs.len() { pos } else { gs.len() as int },
{
    let p = if pos < gs.len() { pos } else { gs.len() as int };
    let idx = idx_of_pos(gs, pos) as int;
    assert(idx == glyph_start(gs, p));
    assert forall|j: int| 0 <= j < p implies #[trigger] glyph_end(gs, j) <= idx by {
        lemma_glyph_start_mono(gs, j + 1, p);
    }
    if p < gs.len() {
        lemma_glyph_text_step(gs, p);
        lemma_char_count_le_bytes(gs[p].substr@);
    }
    lemma_pos_of_idx_unique(gs, idx, p);
}

/// The byte index where glyph `pos` starts; the text's length past the end.
pub open spec fn idx_of_pos(gs: Seq<Glyph>, pos: int) -> nat {
    if pos < gs.len() {
        glyph_start(gs, pos)
    } else {
        glyph_start(gs, gs.len() as int)
    }
}

impl RenderedEditable {
    /// The glyphs' text fits in memory.
    pub open spec fn fits(gs: Seq<Glyph>) -> bool {
        utf8_len(glyph_text(gs)) <= usize::MAX
    }

    /// Build from shaped glyphs, converting the underline byte range into
    /// glyph positions.
    pub fn new(glyphs: Vec<Glyph>, under_start: TextIdx, under_end: TextIdx) -> (r: Self)
        requires
            Self::fits(glyphs@),
        ensures
            r.glyphs@ == glyphs@,
            is_pos_of_idx(glyphs@, under_start as int, r.under_start as int),
            is_pos_of_idx(glyphs@, under_end as int, r.under_end as int),
    {
        let mut self_ = RenderedEditable { glyphs, under_start: 0, under_end: 0 };
        self_.under_start = self_.idx_to_pos(under_start);
        self_.under_end = self_.idx_to_pos(under_end);
        self_
    }

    /// Which glyph contains the byte at idx?
    pub fn idx_to_pos(&self, idx: TextIdx) -> (pos: TextPos)
        requires
            Self::fits(self.glyphs@),
        ensures
            is_pos_of_idx(self.glyphs@, idx as int, pos as int),
    {
        let ghost gs = self.glyphs@;
        let n = self.glyphs.len();
        let mut total: usize = 0;
        let mut i: usize = 0;
        while i < n
            invariant
                gs == self.glyphs@,
                n == gs.len(),
                0 <= i <= n,
                Self::fits(gs),
                total == glyph_start(gs, i as int),
                forall|j: int| 0 <= j < i ==> #[trigger] glyph_end(gs, j) <= idx,
            decreases n - i,
        {
            proof {
                lemma_glyph_text_step(gs, i as int);
                lemma_glyph_start_mono(gs, i + 1, n as int);
                assert(gs.take(n as int) =~= gs);
            }
            let len = str_byte_len(self.glyphs[i].substr.as_str());
            total = total + len;
            if idx < total {
                return i;
            }
            i = i + 1;
        }
        n
    }

    /// Converts glyph pos to idx in the string.
    pub fn pos_to_idx(&self, pos: TextPos) -> (idx: TextIdx)
        requires
            Self::fits(self.glyphs@),
        ensures
            idx == idx_of_pos(self.glyphs@, pos as int),
    {
        let ghost gs = self.glyphs@;
        let n = self.glyphs.len();
        let mut idx: usize = 0;
        let mut i: usize = 0;
        while i < n
            invariant
                gs == self.glyphs@,
                n == gs.len(),
                0 <= i <= n,
                i <= pos,
                Self::fits(gs),
                idx == glyph_start(gs, i as int),
            decreases n - i,
        {
            if i == pos {
                return idx;
            }
            proof {
                lemma_glyph_text_step(gs, i as int);
                lemma_glyph_start_mono(gs, i + 1, n as int);
                assert(gs.take(n as int) =~= gs);
            }
            let len = str_byte_len(self.glyphs[i].substr.as_str());
            idx = idx + len;
            i = i + 1;
        }
        idx
    }

    pub fn has_underline(&self) -> (r: bool)
        ensures
            r == (self.under_start != self.under_end),
    {
        self.under_start != self.under_end
    }
}

/// The text the glyphs render, as one string.
pub fn glyphs_to_string(glyphs: &Vec<Glyph>) -> (text: String)
    ensures
        text@ == glyph_text(glyphs@),
{
    let mut text = String::new();
    let mut i: usize = 0;
    while i < glyphs.len()
        invariant
            0 <= i <= glyphs@.len(),
            text@ == glyph_text(glyphs@.take(i as int)),
        decreases glyphs@.len() - i,
    {
        proof {
            lemma_glyph_text_step(glyphs@, i as int);
        }
        text.append(glyphs[i].substr.as_str());
        i = i + 1;
    }
    assert(glyphs@.take(glyphs@.len() as int) =~= glyphs@);
    text
}

/// A selected glyph range.
#[derive(Clone, Debug)]
pub struct Selection {
    pub start: TextPos,
    pub end: TextPos,
}

impl Selection {
    pub fn new(start: TextPos, end: TextPos) -> (r: Self)
        ensures
            r.start == start,
            r.end == end,
    {
        Self { start, end }
    }
}

/// IME composing text: Android autosuggest may set a composing region
/// after text has been committed, so both parts are kept.
#[derive(Clone)]
pub struct ComposingText {
    /// Text that is being composed
    pub compose_text: String,
    /// Text that has been committed
    pub commit_text: String,
    pub region_start: usize,
    pub region_end: usize,
}

impl ComposingText {
    /// The region lies within the composed text, and the texts fit.
    pub open spec fn wf(&self) -> bool {
        &&& self.region_start <= self.region_end
        &&& self.region_end <= utf8_len(self.commit_text@) + utf8_len(self.compose_text@)
        &&& utf8_len(self.commit_text@) + utf8_len(self.compose_text@) <= usize::MAX
    }

    pub fn new() -> (r: Self)
        ensures
            r.wf(),
            r.compose_text@ == Seq::<char>::empty(),
            r.commit_text@ == Seq::<char>::empty(),
            r.region_start == 0,
            r.region_end == 0,
    {
        Self { compose_text: String::new(), commit_text: String::new(), region_start: 0, region_end: 0 }
    }

    /// Take the committed then the composing text, resetting everything.
    pub fn clear(&mut self) -> (final_text: String)
        ensures
            final_text@ == old(self).commit_text@ + old(self).compose_text@,
            final(self).wf(),
            final(self).compose_text@ == Seq::<char>::empty(),
            final(self).commit_text@ == Seq::<char>::empty(),
            final(self).region_start == 0,
            final(self).region_end == 0,
    {
        self.region_start = 0;
        self.region_end = 0;
        let mut commit = String::new();
        std::mem::swap(&mut commit, &mut self.commit_text);
        let mut compose = String::new();
        std::mem::swap(&mut compose, &mut self.compose_text);
        let mut final_text = commit;
        final_text.append(compose.as_str());
        final_text
    }

    /// Set composing text; the region covers it.
    pub fn compose(&mut self, text: String)
        requires
            utf8_len(old(self).commit_text@) + utf8_len(text@) <= usize::MAX,
        ensures
            final(self).wf(),
            final(self).compose_text@ == text@,
            final(self).commit_text@ == old(self).commit_text@,
            final(self).region_start == utf8_len(old(self).commit_text@),
            final(self).region_end == utf8_len(old(self).commit_text@) + utf8_len(text@),
    {
        self.compose_text = text;
        self.region_start = str_byte_len(self.commit_text.as_str());
        self.region_end = self.region_start + str_byte_len(self.compose_text.as_str());
    }

    /// Commit the composing text; the region collapses to its end.
    pub fn commit(&mut self)
        requires
            old(self).wf(),
        ensures
            final(self).wf(),
            final(self).commit_text@ == old(self).commit_text@ + old(self).compose_text@,
            final(self).compose_text@ == Seq::<char>::empty(),
            final(self).region_start == utf8_len(final(self).commit_text@),
            final(self).region_end == utf8_len(final(self).commit_text@),
    {
        proof {
            lemma_encode_concat(self.commit_text@, self.compose_text@);
        }
        self.commit_text.append(self.compose_text.as_str());
        self.compose_text = String::new();
        self.region_start = str_byte_len(self.commit_text.as_str());
        self.region_end = str_byte_len(self.commit_text.as_str());
    }

    /// Override the composing region for display. Later calls to
    /// `compose` ignore it, which is how Android behaves.
    pub fn set_compose_region(&mut self, start: usize, end: usize)
        requires
            old(self).wf(),
            start <= end,
            end <= utf8_len(old(self).commit_text@) + utf8_len(old(self).compose_text@),
        ensures
            final(self).wf(),
            final(self).commit_text@ == old(self).commit_text@,
            final(self).compose_text@ == old(self).compose_text@,
            final(self).region_start == start,
            final(self).region_end == end,
    {
        self.region_start = start;
        self.region_end = end;
    }
}

/// A string with a cursor. The cursor is always everything before
/// `after_text`, that is `before_text + commit_text + compose_text`.
pub struct Editable {
    composer: ComposingText,
    before_text: String,
    after_text: String,
}

impl Editable {
    /// The text before the composition.
    pub closed spec fn before(&self) -> Seq<char> {
        self.before_text@
    }

    /// The committed part of the composition.
    pub closed spec fn commit(&self) -> Seq<char> {
        self.composer.commit_text@
    }

    /// The part still being composed.
    pub closed spec fn composing(&self) -> Seq<char> {
        self.composer.compose_text@
    }

    /// The text after the cursor.
    pub closed spec fn after(&self) -> Seq<char> {
        self.after_text@
    }

    /// The composing region, in bytes from the start of the composition.
    pub closed spec fn region(&self) -> (usize, usize) {
        (self.composer.region_start, self.composer.region_end)
    }

    /// Everything up to the cursor.
    pub open spec fn text_before(&self) -> Seq<char> {
        self.before() + self.commit() + self.composing()
    }

    /// The whole text.
    pub open spec fn text(&self) -> Seq<char> {
        self.text_before() + self.after()
    }

    /// Well-formed: the region lies in the composition and the text fits.
    pub closed spec fn wf(&self) -> bool {
        &&& self.composer.wf()
        &&& utf8_len(self.text()) <= usize::MAX
    }

    /// No composition is in progress.
    pub open spec fn composition_ended(&self) -> bool {
        &&& self.commit() == Seq::<char>::empty()
        &&& self.composing() == Seq::<char>::empty()
        &&& self.region() == (0usize, 0usize)
    }

    proof fn lemma_len_parts(&self)
        ensures
            utf8_len(self.text()) == utf8_len(self.before()) + utf8_len(self.commit())
                + utf8_len(self.composing()) + utf8_len(self.after()),
            utf8_len(self.text_before()) == utf8_len(self.before()) + utf8_len(self.commit())
                + utf8_len(self.composing()),
    {
        lemma_encode_concat(self.before(), self.commit());
        lemma_encode_concat(self.before() + self.commit(), self.composing());
        lemma_encode_concat(self.text_before(), self.after());
    }

    pub fn new() -> (r: Self)
        ensures
            r.wf(),
            r.text() == Seq::<char>::empty(),
            r.before() == Seq::<char>::empty(),
            r.after() == Seq::<char>::empty(),
            r.composition_ended(),
    {
        let r = Self { composer: ComposingText::new(), before_text: String::new(), after_text: String::new() };
        proof {
            assert(r.text() =~= Seq::<char>::empty());
        }
        r
    }

    /// Reset any composition in progress: the composed text joins the
    /// text before the cursor.
    pub fn end_compose(&mut self)
        requires
            old(self).wf(),
        ensures
            final(self).wf(),
            final(self).composition_ended(),
            final(self).before() == old(self).text_before(),
            final(self).after() == old(self).after(),
            final(self).text() == old(self).text(),
    {
        let final_text = self.composer.clear();
        self.before_text.append(final_text.as_str());
        proof {
            assert(self.before() =~= old(self).text_before());
            assert(self.text() =~= old(self).text());
        }
    }

    pub fn get_text_before(&self) -> (text: String)
        ensures
            text@ == self.text_before(),
    {
        let mut text = owned(self.before_text.as_str());
        text.append(self.composer.commit_text.as_str());
        text.append(self.composer.compose_text.as_str());
        text
    }

    pub fn get_text(&self) -> (text: String)
        ensures
            text@ == self.text(),
    {
        let mut text = self.get_text_before();
        text.append(self.after_text.as_str());
        text
    }

    /// Replace the text around the cursor; the composition is kept.
    pub fn set_text(&mut self, before: String, after: String)
        requires
            old(self).wf(),
            utf8_len(before@) + utf8_len(old(self).commit()) + utf8_len(old(self).composing())
                + utf8_len(after@) <= usize::MAX,
        ensures
            final(self).wf(),
            final(self).before() == before@,
            final(self).after() == after@,
            final(self).commit() == old(self).commit(),
            final(self).composing() == old(self).composing(),
            final(self).region() == old(self).region(),
    {
        self.before_text = before;
        self.after_text = after;
        proof {
            self.lemma_len_parts();
        }
    }

    /// Set the composing text; with `is_commit` it is committed at once.
    pub fn compose(&mut self, suggest_text: &str, is_commit: bool)
        requires
            old(self).wf(),
            utf8_len(old(self).before()) + utf8_len(old(self).commit()) + utf8_len(suggest_text@)
                + utf8_len(old(self).after()) <= usize::MAX,
        ensures
            final(self).wf(),
            final(self).before() == old(self).before(),
            final(self).after() == old(self).after(),
            !is_commit ==> final(self).commit() == old(self).commit() && final(self).composing()
                == suggest_text@ && final(self).region() == (
            utf8_len(old(self).commit()) as usize,
            (utf8_len(old(self).commit()) + utf8_len(suggest_text@)) as usize,
        ),
            is_commit ==> final(self).commit() == old(self).commit() + suggest_text@
                && final(self).composing() == Seq::<char>::empty() && final(self).region() == (
            utf8_len(final(self).commit()) as usize,
            utf8_len(final(self).commit()) as usize,
        ),
    {
        proof {
            self.lemma_len_parts();
        }
        self.composer.compose(owned(suggest_text));
        proof {
            self.lemma_len_parts();
        }
        if is_commit {
            self.composer.commit();
            proof {
                lemma_encode_concat(old(self).commit(), suggest_text@);
                assert(encode_utf8(Seq::<char>::empty()) =~= Seq::<u8>::empty());
            }
        }
        proof {
            self.lemma_len_parts();
        }
    }

    /// Override the composing region.
    pub fn set_compose_region(&mut self, start: usize, end: usize)
        requires
            old(self).wf(),
            start <= end,
            end <= utf8_len(old(self).commit()) + utf8_len(old(self).composing()),
        ensures
            final(self).wf(),
            final(self).before() == old(self).before(),
            final(self).after() == old(self).after(),
            final(self).commit() == old(self).commit(),
            final(self).composing() == old(self).composing(),
            final(self).region() == (start, end),
    {
        self.composer.set_compose_region(start, end);
    }

    /// Delete around the cursor. The composition ends; the character
    /// removal itself is not done (it needs an unstable API), so the text
    /// stays as it was.
    pub fn delete(&mut self, before: usize, after: usize)
        requires
            old(self).wf(),
        ensures
            final(self).wf(),
            final(self).composition_ended(),
            final(self).before() == old(self).text_before(),
            final(self).after() == old(self).after(),
    {
        self.end_compose();
        let b = owned(self.before_text.as_str());
        self.before_text = b;
        let a = owned(self.after_text.as_str());
        self.after_text = a;
    }

    /// Put the cursor at byte `idx` of the text, ending any composition.
    pub fn set_cursor_idx(&mut self, idx: TextPos)
        requires
            old(self).wf(),
            is_char_boundary(encode_utf8(old(self).text()), idx as int),
        ensures
            final(self).wf(),
            final(self).composition_ended(),
            final(self).text() == old(self).text(),
            utf8_len(final(self).before()) == idx,
    {
        self.end_compose();
        let text = self.get_text();
        let (before, after) = split_at_byte(text.as_str(), idx);
        self.before_text = before;
        self.after_text = after;
        proof {
            assert(self.text() =~= self.before() + self.after());
        }
    }

    /// Move the cursor to the start of the text.
    pub fn move_start(&mut self)
        requires
            old(self).wf(),
        ensures
            final(self).wf(),
            final(self).composition_ended(),
            final(self).before() == Seq::<char>::empty(),
            final(self).after() == old(self).text(),
    {
        self.end_compose();
        self.after_text = self.get_text();
        self.before_text = String::new();
        proof {
            assert(self.text() =~= old(self).text());
        }
    }

    /// Move the cursor to the end of the text.
    pub fn move_end(&mut self)
        requires
            old(self).wf(),
        ensures
            final(self).wf(),
            final(self).composition_ended(),
            final(self).before() == old(self).text(),
            final(self).after() == Seq::<char>::empty(),
    {
        self.end_compose();
        self.before_text = self.get_text();
        self.after_text = String::new();
        proof {
            assert(self.text() =~= old(self).text());
        }
    }

    /// The glyph position of the cursor.
    pub fn get_cursor_pos(&self, rendered: &RenderedEditable) -> (pos: TextPos)
        requires
            self.wf(),
            RenderedEditable::fits(rendered.glyphs@),
        ensures
            is_pos_of_idx(rendered.glyphs@, utf8_len(self.text_before()) as int, pos as int),
    {
        let text = self.get_text_before();
        proof {
            self.lemma_len_parts();
        }
        let cursor_off = str_byte_len(text.as_str());
        rendered.idx_to_pos(cursor_off)
    }

    /// Render from the glyphs the text shapes into: the underline marks
    /// the composing region.
    pub fn render(&self, glyphs: Vec<Glyph>) -> (r: RenderedEditable)
        requires
            self.wf(),
            glyph_text(glyphs@) == self.text(),
        ensures
            r.glyphs@ == glyphs@,
            is_pos_of_idx(glyphs@, utf8_len(self.before()) + self.region().0, r.under_start as int),
            is_pos_of_idx(glyphs@, utf8_len(self.before()) + self.region().1, r.under_end as int),
    {
        proof {
            self.lemma_len_parts();
        }
        let compose_off = str_byte_len(self.before_text.as_str());
        RenderedEditable::new(
            glyphs,
            compose_off + self.composer.region_start,
            compose_off + self.composer.region_end,
        )
    }
}

impl Editable {
    /// Move the cursor by `dir` glyphs of `glyphs`, the shaping of the
    /// text. The composition ends.
    pub fn move_cursor(&mut self, dir: isize, glyphs: Vec<Glyph>)
        requires
            old(self).wf(),
            glyph_text(glyphs@) == old(self).text(),
            dir > isize::MIN,
            dir >= 0 ==> glyphs@.len() + dir <= usize::MAX,
            dir < 0 && pos_of(glyphs@, utf8_len(old(self).text_before()) as int) > 0 ==> -dir
                <= pos_of(glyphs@, utf8_len(old(self).text_before()) as int),
        ensures
            final(self).wf(),
            final(self).composition_ended(),
            final(self).text() == old(self).text(),
            utf8_len(final(self).before()) == idx_of_pos(
                glyphs@,
                moved_pos(
                    pos_of(glyphs@, utf8_len(old(self).text_before()) as int),
                    dir as int,
                    glyphs@.len() as int,
                ),
            ),
            ({
                let cp = pos_of(glyphs@, utf8_len(old(self).text_before()) as int);
                let n = glyphs@.len() as int;
                &&& dir >= 0 && cp + dir <= n ==> utf8_len(final(self).before()) == idx_of_pos(glyphs@, cp + dir)
                &&& dir >= 0 && cp + dir > n ==> utf8_len(final(self).before()) == idx_of_pos(glyphs@, n)
                &&& dir < 0 && cp > 0 ==> utf8_len(final(self).before()) == idx_of_pos(glyphs@, cp + dir)
                &&& dir < 0 && cp == 0 ==> utf8_len(final(self).before()) == idx_of_pos(glyphs@, 0)
            }),
    {
        let ghost gs = glyphs@;
        self.end_compose();
        let rendered = self.render(glyphs);
        let mut cursor_pos = self.get_cursor_pos(&rendered);
        proof {
            lemma_pos_of_idx_unique(gs, utf8_len(old(self).text_before()) as int, cursor_pos as int);
        }

        // Move the cursor pos
        if dir < 0 {
            let d = (-dir) as usize;
            if cursor_pos > 0 {
                cursor_pos -= d;
            }
        } else {
            cursor_pos += dir as usize;
            let glyphs_len = rendered.glyphs.len();
            if cursor_pos > glyphs_len {
                cursor_pos = glyphs_len;
            }
        }

        // Convert cursor pos to string idx
        let idx = rendered.pos_to_idx(cursor_pos);
        proof {
            let q = if cursor_pos < gs.len() { cursor_pos as int } else { gs.len() as int };
            lemma_glyph_text_split(gs, q);
            lemma_boundary_at_prefix(self.text(), glyph_text(gs.take(q)), glyph_text(gs.skip(q)));
        }
        self.set_cursor_idx(idx);
    }
}

} // verus!
