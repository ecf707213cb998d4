//! The context of one title: its bracketed blocks and the records of where
//! earlier handlers matched, and the questions asked of a span of it — is it
//! labelled, where does it stand, does it carry subtitles.
use crate::blocks::{block_ok, blocks_of, blocks_of_ok, find_blocks, view_blocks};
use crate::fields::Record;
use crate::language::Lexicon;
use crate::matching::{
    find, found_in, full, fully_matches, has_match, matches_in, spans, spans_of, spans_or_empty,
    spans_placed, view_span, view_spans, well_placed,
};
use crate::patterns::{
    AUDIO_LABEL, AUDIO_MARKER, BLOCK_ANNOTATION, LIST_AFTER_LABEL, LIST_OPENING, MULTI_BEFORE,
    MULTI_SUB, ROLE, SEPARATORS, SUBS_AT_END, SUBTITLE_AFTER, SUBTITLE_FILE, SUBTITLE_LABEL,
    SUBTITLE_WORD, TRAILING_ROLE, ANNOTATION, REGIONAL_CODE, SITE_OR_GENRE,
};
use crate::language::{regional, regional_language};
use crate::matching::{message, span_texts_valid, text_of};
use vstd::utf8::{decode_utf8, encode_utf8_valid_utf8, valid_utf8};
use crate::text::same;
use crate::ParseError;
use vstd::prelude::*;
use vstd::string::StringSliceAdditionalSpecFns;

verus! {

/// Two byte ranges share at least one byte.
pub open spec fn overlaps(a: (int, int), b: (int, int)) -> bool {
    a.0 < b.1 && b.0 < a.1
}

/// Whether two byte ranges share at least one byte.
pub fn overlap(a: (usize, usize), b: (usize, usize)) -> (r: bool)
    ensures
        r == overlaps((a.0 as int, a.1 as int), (b.0 as int, b.1 as int)),
{
    a.0 < b.1 && b.0 < a.1
}

/// A match that starts at the very beginning.
pub open spec fn at_start(m: Option<(int, int)>) -> bool {
    m matches Some(r) && r.0 == 0
}

/// Fields whose records mark metadata: languages and technical labels.
pub open spec fn is_metadata_field(f: Seq<char>) -> bool {
    f == "languages"@ || f == "audio"@ || f == "channels"@ || f == "hdr"@ || f == "subbed"@ || f
        == "dubbed"@
}

/// Fields whose records mark a release group or a site.
pub open spec fn is_group_field(f: Seq<char>) -> bool {
    f == "group"@ || f == "site"@
}

/// Fields after whose records metadata follows: year, resolution, seasons,
/// episodes.
pub open spec fn is_anchor_field(f: Seq<char>) -> bool {
    f == "year"@ || f == "resolution"@ || f == "seasons"@ || f == "episodes"@
}

pub fn metadata_field(f: &str) -> (r: bool)
    ensures
        r == is_metadata_field(f@),
{
    same(f, "languages") || same(f, "audio") || same(f, "channels") || same(f, "hdr") || same(
        f,
        "subbed",
    ) || same(f, "dubbed")
}

pub fn group_field(f: &str) -> (r: bool)
    ensures
        r == is_group_field(f@),
{
    same(f, "group") || same(f, "site")
}

pub fn anchor_field(f: &str) -> (r: bool)
    ensures
        r == is_anchor_field(f@),
{
    same(f, "year") || same(f, "resolution") || same(f, "seasons") || same(f, "episodes")
}

/// `text` with the bytes in `[a, b)` replaced by spaces.
pub open spec fn blank(text: Seq<u8>, a: int, b: int) -> Seq<u8> {
    Seq::new(text.len(), |i: int| if a <= i < b { 0x20u8 } else { text[i] })
}

/// One title with the records of earlier matches in it.
pub struct Details<'a> {
    title: &'a str,
    records: &'a [Record],
    title_end: usize,
    blocks: Vec<(usize, usize)>,
    lexicon: &'a Lexicon,
}

impl<'a> Details<'a> {
    #[verifier::type_invariant]
    spec fn well_formed(self) -> bool {
        view_blocks(self.blocks@) == blocks_of(self.title.spec_bytes())
    }

    /// The bytes of the title.
    pub closed spec fn text(&self) -> Seq<u8> {
        self.title.spec_bytes()
    }

    /// The records of earlier matches.
    pub closed spec fn records(&self) -> Seq<Record> {
        self.records@
    }

    /// Where the title proper ends.
    pub closed spec fn title_end(&self) -> int {
        self.title_end as int
    }

    /// The language data and patterns.
    pub closed spec fn lexicon(&self) -> Lexicon {
        *self.lexicon
    }

    /// The title's blocks, innermost first.
    pub open spec fn blocks(&self) -> Seq<(int, int)> {
        blocks_of(self.text())
    }

    /// The context of `title`: its blocks, found once.
    pub fn new(title: &'a str, records: &'a [Record], title_end: usize, lexicon: &'a Lexicon) -> (r:
        Details<'a>)
        ensures
            r.text() == title.spec_bytes(),
            r.records() == records@,
            r.title_end() == title_end,
            r.lexicon() == *lexicon,
    {
        let blocks = find_blocks(title.as_bytes());
        Details { title, records, title_end, blocks, lexicon }
    }

    proof fn facts(&self)
        requires
            view_blocks(self.blocks@) == self.blocks(),
        ensures
            self.blocks@.len() == self.blocks().len(),
            forall|i: int| 0 <= i < self.blocks().len() ==> block_ok(self.text(), #[trigger] self.blocks()[i]),
            forall|i: int|
                0 <= i < self.blocks@.len() ==> (#[trigger] self.blocks@[i]).0 as int == self.blocks()[i].0
                    && self.blocks@[i].1 as int == self.blocks()[i].1,
    {
        blocks_of_ok(self.text());
        assert forall|i: int| 0 <= i < self.blocks@.len() implies (#[trigger] self.blocks@[i]).0 as int
            == self.blocks()[i].0 && self.blocks@[i].1 as int == self.blocks()[i].1 by {
            assert(view_blocks(self.blocks@)[i] == self.blocks()[i]);
        }
    }

    // ---------------------------------------------------------------- lists

    /// A language list starts at `s`: a languages record starts there, or a
    /// known language is named right there.
    pub open spec fn list_starts_at(&self, s: int) -> bool {
        let t = self.text();
        ||| exists|i: int|
            0 <= i < self.records().len() && (#[trigger] self.records()[i]).field@ == "languages"@
                && self.records()[i].start == s
        ||| exists|k: int|
            0 <= k < self.lexicon().patterns@.len() && at_start(
                #[trigger] found_in(self.lexicon().patterns@[k].1@, t.subrange(s, t.len() as int)),
            )
    }

    /// A language list follows position `p`: separators then a bracket, or a
    /// colon, and then a language list starts.
    pub open spec fn language_list_at(&self, p: int) -> bool {
        let t = self.text();
        &&& 0 <= p <= t.len()
        &&& found_in(LIST_OPENING@, t.subrange(p, t.len() as int)) matches Some(op)
        &&& self.list_starts_at(p + op.1)
    }

    /// Whether a language list follows position `start` (see
    /// `language_list_at`).
    pub fn is_language_list(&self, start: usize) -> (r: bool)
        ensures
            r == self.language_list_at(start as int),
    {
        let t = self.title.as_bytes();
        if start > t.len() {
            return false;
        }
        let opening = match find(LIST_OPENING, &t[start..t.len()]) {
            Some(m) => m,
            None => return false,
        };
        let s = start + opening.1;
        let ghost op = (opening.0 as int, opening.1 as int);
        assert(found_in(LIST_OPENING@, t@.subrange(start as int, t@.len() as int)) == Some(op));
        let mut i: usize = 0;
        while i < self.records.len()
            invariant
                i <= self.records@.len(),
                self.records@ == self.records(),
                s == start + op.1,
                start <= t@.len(),
                s <= t@.len(),
                t@ == self.text(),
                found_in(LIST_OPENING@, t@.subrange(start as int, t@.len() as int)) == Some(op),

                forall|j: int|
                    0 <= j < i ==> !((#[trigger] self.records@[j]).field@ == "languages"@
                        && self.records@[j].start == s),
            decreases self.records@.len() - i,
        {
            if same(self.records[i].field.as_str(), "languages") && self.records[i].start == s {
                assert(self.records()[i as int].field@ == "languages"@);
                assert(self.list_starts_at(start + op.1));
                return true;
            }
            i = i + 1;
        }
        let patterns = &self.lexicon.patterns;
        let mut k: usize = 0;
        while k < patterns.len()
            invariant
                k <= patterns@.len(),
                s == start + op.1,
                start <= t@.len(),
                s <= t@.len(),
                t@ == self.text(),
                found_in(LIST_OPENING@, t@.subrange(start as int, t@.len() as int)) == Some(op),

                patterns@ == self.lexicon().patterns@,
                forall|j: int|
                    0 <= j < k ==> !at_start(
                        #[trigger] found_in(patterns@[j].1@, t@.subrange(s as int, t@.len() as int)),
                    ),
            decreases patterns@.len() - k,
        {
            match find(patterns[k].1.as_str(), &t[s..t.len()]) {
                Some(m) => {
                    if m.0 == 0 {
                        assert(at_start(found_in(patterns@[k as int].1@, t@.subrange(s as int, t@.len() as int))));
                        return true;
                    }
                },
                None => {},
            }
            k = k + 1;
        }
        false
    }

    // ------------------------------------------------------------- contexts

    /// Where the mask of block `blk` starts: at its bracket, or earlier at a
    /// role label that right before it introduces a language list.
    pub open spec fn mask_start(&self, start: int, blk: (int, int)) -> int {
        let t = self.text();
        let left = blk.0;
        if left >= start {
            match spans_of(TRAILING_ROLE@, t.subrange(start, left)) {
                Ok(labels) => if labels.len() > 0 && self.language_list_at(
                    start + labels.last().0 + labels.last().2.len(),
                ) {
                    start + labels.last().0
                } else {
                    left
                },
                Err(_) => left,
            }
        } else {
            left
        }
    }

    /// `text` (the title from `start`) with block `blk` blanked when it ends
    /// before `end`.
    pub open spec fn mask_block(&self, text: Seq<u8>, start: int, end: int, blk: (int, int)) -> Seq<
        u8,
    > {
        if start <= blk.1 && blk.1 < end {
            let left = if self.mask_start(start, blk) > start {
                self.mask_start(start, blk)
            } else {
                start
            };
            blank(text, left - start, blk.1 + 1 - start)
        } else {
            text
        }
    }

    /// The title from `start` to `end` with the first `k` blocks masked.
    pub open spec fn masked(&self, start: int, end: int, k: int) -> Seq<u8>
        decreases k,
    {
        if k <= 0 {
            self.text().subrange(start, end)
        } else {
            self.mask_block(self.masked(start, end, k - 1), start, end, self.blocks()[k - 1])
        }
    }

    /// The title from `start` to `end` with every block that closes inside it
    /// blanked out, together with a label that introduces it as a language
    /// list.
    pub open spec fn context(&self, start: int, end: int) -> Seq<u8> {
        self.masked(start, end, self.blocks().len() as int)
    }

    /// The title from `start` to `end` with its inner blocks blanked out (see
    /// `context`).
    pub fn context_text(&self, start: usize, end: usize) -> (r: Vec<u8>)
        requires
            start <= end <= self.text().len(),
        ensures
            r@ == self.context(start as int, end as int),
    {
        proof {
            use_type_invariant(self);
            self.facts();
        }
        let t = self.title.as_bytes();
        let mut text = vstd::slice::slice_to_vec(&t[start..end]);
        let mut k: usize = 0;
        while k < self.blocks.len()
            invariant
                k <= self.blocks@.len(),
                start <= end <= t@.len(),
                t@ == self.text(),
                view_blocks(self.blocks@) == self.blocks(),
                self.blocks@.len() == self.blocks().len(),
                forall|i: int| 0 <= i < self.blocks().len() ==> block_ok(self.text(), #[trigger] self.blocks()[i]),
                forall|i: int|
                    0 <= i < self.blocks@.len() ==> (#[trigger] self.blocks@[i]).0 as int == self.blocks()[i].0
                        && self.blocks@[i].1 as int == self.blocks()[i].1,
                text@ == self.masked(start as int, end as int, k as int),
                text@.len() == end - start,
            decreases self.blocks@.len() - k,
        {
            let (left0, right) = self.blocks[k];
            let ghost blk = self.blocks()[k as int];
            assert(block_ok(self.text(), blk));
            if start <= right && right < end {
                let mut left = left0;
                if left0 >= start {
                    match spans(TRAILING_ROLE, &t[start..left0]) {
                        Ok(labels) => {
                            if labels.len() > 0 {
                                let last = &labels[labels.len() - 1];
                                let ghost lv = view_span(*last);
                                assert(view_spans(labels@).last() == lv);
                                assert(spans_placed(t@.subrange(start as int, left0 as int), view_spans(labels@)));
                                assert(well_placed(t@.subrange(start as int, left0 as int), (lv.0, lv.1)));
                                let pos = start + last.0;
                                if last.2.len() <= t.len() - pos {
                                    if self.is_language_list(pos + last.2.len()) {
                                        left = pos;
                                    }
                                }
                            }
                        },
                        Err(_) => {},
                    }
                }
                assert(left == self.mask_start(start as int, blk));
                let from = if left > start {
                    left
                } else {
                    start
                };
                let ghost before = text@;
                let mut j: usize = from - start;
                while j <= right - start
                    invariant
                        start <= from <= right,
                right < end,
                from - start <= j <= right - start + 1,
                        right - start < text@.len(),
                        text@.len() == before.len(),
                        forall|i: int|
                            0 <= i < text@.len() ==> #[trigger] text@[i] == if from - start <= i < j {
                                0x20u8
                            } else {
                                before[i]
                            },
                    decreases right - start + 1 - j,
                {
                    text.set(j, 0x20u8);
                    j = j + 1;
                }
                assert(text@ =~= blank(before, from - start, right + 1 - start));
            }
            k = k + 1;
        }
        text
    }
    // ---------------------------------------------------------- annotations

    /// Block `blk` holds only an SDH or forced annotation, with only
    /// separators between `end` and it (and after it, up to `limit`).
    pub open spec fn block_annotates(&self, end: int, limit: Option<int>, blk: (int, int)) -> bool {
        let t = self.text();
        let lim = match limit {
            Some(l) => l,
            None => t.len() as int,
        };
        &&& end <= blk.0
        &&& blk.1 < lim
        &&& fully_matches(SEPARATORS@, t.subrange(end, blk.0))
        &&& (limit is None || fully_matches(SEPARATORS@, t.subrange(blk.1 + 1, lim)))
        &&& fully_matches(BLOCK_ANNOTATION@, t.subrange(blk.0 + 1, blk.1))
    }

    /// An SDH or forced annotation follows `end` (up to `limit`, with only
    /// separators after it then), bare or alone in a block.
    pub open spec fn annotated_at(&self, end: int, limit: Option<int>) -> bool {
        let t = self.text();
        let lim = match limit {
            Some(l) => l,
            None => t.len() as int,
        };
        let suffix = t.subrange(end, lim);
        ||| (found_in(ANNOTATION@, suffix) matches Some(a) && (limit is None || fully_matches(
            SEPARATORS@,
            suffix.subrange(a.1, suffix.len() as int),
        )))
        ||| exists|k: int|
            0 <= k < self.blocks().len() && self.block_annotates(end, limit, #[trigger] self.blocks()[k])
    }

    /// Whether an SDH or forced annotation follows `end` (see `annotated_at`).
    pub fn subtitle_annotation(&self, end: usize, limit: Option<usize>) -> (r: bool)
        requires
            end <= match limit {
                Some(l) => l as int,
                None => self.text().len() as int,
            } <= self.text().len(),
        ensures
            r == self.annotated_at(
                end as int,
                match limit {
                    Some(l) => Some(l as int),
                    None => None,
                },
            ),
    {
        proof {
            use_type_invariant(self);
            self.facts();
        }
        let ghost lv = match limit {
            Some(l) => Some(l as int),
            None => None::<int>,
        };
        let t = self.title.as_bytes();
        let lim = match limit {
            Some(l) => l,
            None => t.len(),
        };
        let suffix = &t[end..lim];
        match find(ANNOTATION, suffix) {
            Some(a) => {
                if limit.is_none() || full(SEPARATORS, &suffix[a.1..suffix.len()]) {
                    return true;
                }
            },
            None => {},
        }
        let mut k: usize = 0;
        while k < self.blocks.len()
            invariant
                k <= self.blocks@.len(),
                t@ == self.text(),
                end <= lim <= t@.len(),
                lim == match limit {
                    Some(l) => l as int,
                    None => t@.len() as int,
                },
                lv == match limit {
                    Some(l) => Some(l as int),
                    None => None::<int>,
                },
                self.blocks@.len() == self.blocks().len(),
                forall|i: int| 0 <= i < self.blocks().len() ==> block_ok(self.text(), #[trigger] self.blocks()[i]),
                forall|i: int|
                    0 <= i < self.blocks@.len() ==> (#[trigger] self.blocks@[i]).0 as int == self.blocks()[i].0
                        && self.blocks@[i].1 as int == self.blocks()[i].1,
                forall|j: int| 0 <= j < k ==> !self.block_annotates(end as int, lv, #[trigger] self.blocks()[j]),
            decreases self.blocks@.len() - k,
        {
            let (left, right) = self.blocks[k];
            assert(block_ok(self.text(), self.blocks()[k as int]));
            if end <= left && right < lim && full(SEPARATORS, &t[end..left]) && (limit.is_none()
                || full(SEPARATORS, &t[right + 1..lim])) && full(
                BLOCK_ANNOTATION,
                &t[left + 1..right],
            ) {
                assert(self.block_annotates(end as int, lv, self.blocks()[k as int]));
                return true;
            }
            k = k + 1;
        }
        false
    }

    // ---------------------------------------------------------------- labels

    /// Block `blk` encloses `span` and labels it: a role label leads the
    /// block up to the span, or a subtitle label follows the span to the end
    /// of the block, or only separators lead up to the span and an SDH or
    /// forced annotation follows it.
    pub open spec fn labels_span(&self, span: (int, int), blk: (int, int)) -> bool {
        let t = self.text();
        &&& blk.0 < span.0
        &&& span.1 <= blk.1
        &&& {
            let prefix = self.context(blk.0 + 1, span.0);
            ||| matches_in(ROLE@, prefix)
            ||| fully_matches(SUBTITLE_LABEL@, t.subrange(span.1, blk.1))
            ||| (fully_matches(SEPARATORS@, prefix) && self.annotated_at(span.1, Some(blk.1)))
        }
    }

    /// Some block labels `span` (see `labels_span`).
    pub open spec fn labelled_span(&self, span: (int, int)) -> bool {
        exists|k: int| 0 <= k < self.blocks().len() && self.labels_span(span, #[trigger] self.blocks()[k])
    }

    /// Whether some block labels `span` (see `labels_span`).
    pub fn labelled(&self, span: (usize, usize)) -> (r: bool)
        requires
            span.0 <= span.1 <= self.text().len(),
        ensures
            r == self.labelled_span((span.0 as int, span.1 as int)),
    {
        proof {
            use_type_invariant(self);
            self.facts();
        }
        let ghost sv = (span.0 as int, span.1 as int);
        let t = self.title.as_bytes();
        let mut k: usize = 0;
        while k < self.blocks.len()
            invariant
                k <= self.blocks@.len(),
                t@ == self.text(),
                span.0 <= span.1 <= t@.len(),
                sv == (span.0 as int, span.1 as int),
                self.blocks@.len() == self.blocks().len(),
                forall|i: int| 0 <= i < self.blocks().len() ==> block_ok(self.text(), #[trigger] self.blocks()[i]),
                forall|i: int|
                    0 <= i < self.blocks@.len() ==> (#[trigger] self.blocks@[i]).0 as int == self.blocks()[i].0
                        && self.blocks@[i].1 as int == self.blocks()[i].1,
                forall|j: int| 0 <= j < k ==> !self.labels_span(sv, #[trigger] self.blocks()[j]),
            decreases self.blocks@.len() - k,
        {
            let (left, right) = self.blocks[k];
            assert(block_ok(self.text(), self.blocks()[k as int]));
            if left < span.0 && span.1 <= right {
                let prefix = self.context_text(left + 1, span.0);
                if has_match(ROLE, prefix.as_slice()) || full(SUBTITLE_LABEL, &t[span.1..right]) || (full(
                    SEPARATORS,
                    prefix.as_slice(),
                ) && self.subtitle_annotation(span.1, Some(right))) {
                    assert(self.labels_span(sv, self.blocks()[k as int]));
                    return true;
                }
            }
            k = k + 1;
        }
        false
    }

    // -------------------------------------------------------------- position

    /// A metadata record (languages or technical) overlaps `span`.
    pub open spec fn overlaps_metadata(r: Record, span: (int, int)) -> bool {
        is_metadata_field(r.field@) && overlaps(span, (r.start as int, r.end as int))
    }

    /// A group or site record encloses `span`.
    pub open spec fn inside_group(r: Record, span: (int, int)) -> bool {
        is_group_field(r.field@) && r.start <= span.0 && span.1 <= r.end
    }

    /// A year, resolution, season or episode record ends before `span`.
    pub open spec fn after_anchor(r: Record, span: (int, int)) -> bool {
        is_anchor_field(r.field@) && r.end <= span.0
    }

    /// `span` stands where metadata stands: over a metadata record, or
    /// labelled, or — unless inside a group or site — after a year,
    /// resolution, season or episode.
    pub open spec fn metadata_at(&self, span: (int, int)) -> bool {
        let rs = self.records();
        if exists|i: int| 0 <= i < rs.len() && Self::overlaps_metadata(#[trigger] rs[i], span) {
            true
        } else if self.labelled_span(span) {
            true
        } else if exists|i: int| 0 <= i < rs.len() && Self::inside_group(#[trigger] rs[i], span) {
            false
        } else {
            exists|i: int| 0 <= i < rs.len() && Self::after_anchor(#[trigger] rs[i], span)
        }
    }

    /// Whether `span` stands where metadata stands (see `metadata_at`).
    pub fn metadata_position(&self, span: (usize, usize)) -> (r: bool)
        requires
            span.0 <= span.1 <= self.text().len(),
        ensures
            r == self.metadata_at((span.0 as int, span.1 as int)),
    {
        let ghost sv = (span.0 as int, span.1 as int);
        let ghost rs = self.records();
        let mut i: usize = 0;
        while i < self.records.len()
            invariant
                i <= self.records@.len(),
                rs == self.records@,
                sv == (span.0 as int, span.1 as int),
                forall|j: int| 0 <= j < i ==> !Self::overlaps_metadata(#[trigger] rs[j], sv),
            decreases self.records@.len() - i,
        {
            let r = &self.records[i];
            if metadata_field(r.field.as_str()) && overlap(span, (r.start, r.end)) {
                assert(Self::overlaps_metadata(rs[i as int], sv));
                return true;
            }
            i = i + 1;
        }
        if self.labelled(span) {
            return true;
        }
        let mut i: usize = 0;
        while i < self.records.len()
            invariant
                i <= self.records@.len(),
                rs == self.records@,
                sv == (span.0 as int, span.1 as int),
                forall|j: int| 0 <= j < i ==> !Self::inside_group(#[trigger] rs[j], sv),
                forall|j: int| 0 <= j < rs.len() ==> !Self::overlaps_metadata(#[trigger] rs[j], sv),
                !self.labelled_span(sv),
            decreases self.records@.len() - i,
        {
            let r = &self.records[i];
            if group_field(r.field.as_str()) && r.start <= span.0 && span.1 <= r.end {
                assert(Self::inside_group(rs[i as int], sv));
                return false;
            }
            i = i + 1;
        }
        let mut i: usize = 0;
        while i < self.records.len()
            invariant
                i <= self.records@.len(),
                rs == self.records@,
                sv == (span.0 as int, span.1 as int),
                forall|j: int| 0 <= j < i ==> !Self::after_anchor(#[trigger] rs[j], sv),
                forall|j: int| 0 <= j < rs.len() ==> !Self::overlaps_metadata(#[trigger] rs[j], sv),
                forall|j: int| 0 <= j < rs.len() ==> !Self::inside_group(#[trigger] rs[j], sv),
                !self.labelled_span(sv),
            decreases self.records@.len() - i,
        {
            let r = &self.records[i];
            if anchor_field(r.field.as_str()) && r.end <= span.0 {
                assert(Self::after_anchor(rs[i as int], sv));
                assert(!(exists|j: int| 0 <= j < rs.len() && Self::overlaps_metadata(#[trigger] rs[j], sv)));
                assert(!(exists|j: int| 0 <= j < rs.len() && Self::inside_group(#[trigger] rs[j], sv)));
                assert(exists|j: int| 0 <= j < rs.len() && Self::after_anchor(#[trigger] rs[j], sv));
                assert(rs == self.records());
                assert(self.metadata_at(sv));
                return true;
            }
            i = i + 1;
        }
        false
    }

    /// Whether a role label found in `text` counts: always, unless `text`
    /// follows an audio marker; then only when a list opens after it or no
    /// `multi` marker precedes it.
    pub open spec fn keeps_label(text: Seq<u8>, audio_marker: bool, l: (int, int, Seq<u8>)) -> bool {
        ||| !audio_marker
        ||| matches_in(LIST_AFTER_LABEL@, text.subrange(l.1, text.len() as int))
        ||| !matches_in(MULTI_BEFORE@, text.subrange(0, l.0))
    }

    pub open spec fn kept_labels(text: Seq<u8>, audio_marker: bool, ls: Seq<(int, int, Seq<u8>)>) -> Seq<
        (int, int, Seq<u8>),
    >
        decreases ls.len(),
    {
        if ls.len() == 0 {
            Seq::empty()
        } else {
            let r = Self::kept_labels(text, audio_marker, ls.drop_last());
            if Self::keeps_label(text, audio_marker, ls.last()) {
                r.push(ls.last())
            } else {
                r
            }
        }
    }

    /// The role labels of `text` that count (see `keeps_label`).
    pub open spec fn labels_in(text: Seq<u8>, audio_marker: bool) -> Seq<(int, int, Seq<u8>)> {
        Self::kept_labels(text, audio_marker, spans_or_empty(ROLE@, text))
    }

    /// The role labels of `text` that count (see `labels_in`).
    pub fn labels(&self, text: &[u8], audio_marker: bool) -> (r: Vec<(usize, usize, Vec<u8>)>)
        ensures
            view_spans(r@) == Self::labels_in(text@, audio_marker),
            spans_placed(text@, view_spans(r@)),
    {
        let found = match spans(ROLE, text) {
            Ok(v) => v,
            Err(_) => Vec::new(),
        };
        let ghost fv = view_spans(found@);
        assert(fv == spans_or_empty(ROLE@, text@));
        let mut out: Vec<(usize, usize, Vec<u8>)> = Vec::new();
        let mut k: usize = 0;
        while k < found.len()
            invariant
                k <= found@.len(),
                fv == view_spans(found@),
                spans_placed(text@, fv),
                view_spans(out@) == Self::kept_labels(text@, audio_marker, fv.subrange(0, k as int)),
                spans_placed(text@, view_spans(out@)),
            decreases found@.len() - k,
        {
            assert(fv.subrange(0, k + 1).drop_last() =~= fv.subrange(0, k as int));
            assert(fv[k as int] == view_span(found@[k as int]));
            let (s, e) = (found[k].0, found[k].1);
            assert(well_placed(text@, (fv[k as int].0, fv[k as int].1)));
            if !audio_marker || has_match(LIST_AFTER_LABEL, &text[e..text.len()]) || !has_match(
                MULTI_BEFORE,
                &text[0..s],
            ) {
                let ghost before = view_spans(out@);
                out.push((s, e, found[k].2.clone()));
                assert(view_spans(out@) =~= before.push(fv[k as int]));
            }
            k = k + 1;
        }
        assert(fv.subrange(0, k as int) =~= fv);
        out
    }
    // ---------------------------------------------------------------- roles

    /// The end of the first (innermost) block from the `k`-th on that opens
    /// before `p` and ends after it.
    pub open spec fn enclosing_end(&self, p: int, k: int) -> Option<int>
        decreases self.blocks().len() - k,
    {
        if k < 0 || k >= self.blocks().len() {
            None
        } else if self.blocks()[k].0 < p && p < self.blocks()[k].1 {
            Some(self.blocks()[k].1)
        } else {
            self.enclosing_end(p, k + 1)
        }
    }

    /// The end of a span cut at the end of the innermost block around its
    /// start.
    pub open spec fn role_end(&self, span: (int, int)) -> int {
        match self.enclosing_end(span.0, 0) {
            Some(r) => if r < span.1 {
                r
            } else {
                span.1
            },
            None => span.1,
        }
    }

    /// The role given by the label that leads the first block from the
    /// `k`-th on around `(start, end)`: subtitles unless the label is an
    /// audio or dub label.  Blocks without a counting label are passed over.
    pub open spec fn block_label_role(&self, start: int, end: int, audio_marker: bool, k: int) -> Option<
        bool,
    >
        decreases self.blocks().len() - k,
    {
        if k < 0 || k >= self.blocks().len() {
            None
        } else {
            let b = self.blocks()[k];
            if b.0 < start && end <= b.1 && Self::labels_in(
                self.context(b.0 + 1, start),
                audio_marker,
            ).len() > 0 {
                Some(
                    !matches_in(
                        AUDIO_LABEL@,
                        Self::labels_in(self.context(b.0 + 1, start), audio_marker).last().2,
                    ),
                )
            } else {
                self.block_label_role(start, end, audio_marker, k + 1)
            }
        }
    }

    /// The latest end, at most `p`, of the first `k` year, resolution,
    /// season and episode records, and at least the end of the title.
    pub open spec fn anchor_start(&self, p: int, k: int) -> int
        decreases k,
    {
        if k <= 0 {
            self.title_end()
        } else {
            let s = self.anchor_start(p, k - 1);
            let r = self.records()[k - 1];
            if Self::after_anchor(r, (p, p)) && r.end > s {
                r.end as int
            } else {
                s
            }
        }
    }

    /// Where the context that may label `(start, end)` begins: the title's
    /// start when a block labels the span; else, for a span past the title
    /// proper, after the title and every year, resolution, season and episode
    /// before it; `None` for an unlabelled span in the title proper.
    pub open spec fn role_context_start(&self, start: int, end: int) -> Option<int> {
        if self.labelled_span((start, end)) {
            Some(0)
        } else if start < self.title_end() {
            None
        } else {
            Some(self.anchor_start(start, self.records().len() as int))
        }
    }

    /// The smallest opening of the first `k` blocks around `(start, end)`.
    pub open spec fn outer_left(&self, start: int, end: int, k: int) -> Option<int>
        decreases k,
    {
        if k <= 0 {
            None
        } else {
            let m = self.outer_left(start, end, k - 1);
            let b = self.blocks()[k - 1];
            if b.0 < start && end <= b.1 {
                match m {
                    Some(x) => if b.0 < x {
                        Some(b.0)
                    } else {
                        Some(x)
                    },
                    None => Some(b.0),
                }
            } else {
                m
            }
        }
    }

    /// The role given by the last counting label of the context from `from`
    /// to the span, when only separators lie between it and the outermost
    /// block around the span (or no block is around it).
    pub open spec fn context_label_role(&self, from: int, start: int, end: int, audio_marker: bool) -> Option<
        bool,
    > {
        let t = self.text();
        let ls = Self::labels_in(self.context(from, start), audio_marker);
        if ls.len() > 0 {
            let e = from + ls.last().1;
            let outer = self.outer_left(start, end, self.blocks().len() as int);
            if outer is None || (e <= outer->0 && fully_matches(SEPARATORS@, t.subrange(e, outer->0))) {
                Some(!matches_in(AUDIO_LABEL@, ls.last().2))
            } else {
                None
            }
        } else {
            None
        }
    }

    /// A subtitle label follows `p`, and no language list follows it.
    pub open spec fn trailing_subtitle(&self, p: int) -> bool {
        let t = self.text();
        &&& found_in(SUBTITLE_AFTER@, t.subrange(p, t.len() as int)) matches Some(m)
        &&& !self.language_list_at(p + m.1)
    }

    /// Whether the language at `span` is a subtitle language rather than an
    /// audio language:
    /// - yes for a subtitle file;
    /// - with the span cut at the end of its innermost block: yes when it is
    ///   a multi-subtitle marker, or holds a subtitle word (unless it ends in
    ///   a subtitle label that introduces a language list), or an SDH or
    ///   forced annotation follows it;
    /// - else as the last counting label leading the innermost labelled
    ///   block around it says;
    /// - else (no for an unlabelled span in the title proper) as the last
    ///   counting label of the context before it says, when nothing but
    ///   separators lies between that label and the span's outermost block;
    /// - else yes exactly when a subtitle label follows it that does not
    ///   introduce a language list.
    pub open spec fn subtitle_role_of(&self, span: (int, int)) -> bool {
        let t = self.text();
        if matches_in(SUBTITLE_FILE@, t) {
            true
        } else {
            let e = self.role_end(span);
            let text = t.subrange(span.0, e);
            let am = fully_matches(AUDIO_MARKER@, text);
            if fully_matches(MULTI_SUB@, text) {
                true
            } else if !(self.language_list_at(e) && matches_in(SUBS_AT_END@, text)) && matches_in(
                SUBTITLE_WORD@,
                text,
            ) {
                true
            } else if self.annotated_at(e, None) {
                true
            } else {
                match self.block_label_role(span.0, e, am, 0) {
                    Some(b) => b,
                    None => match self.role_context_start(span.0, e) {
                        None => false,
                        Some(from) => match self.context_label_role(from, span.0, e, am) {
                            Some(b) => b,
                            None => self.trailing_subtitle(e),
                        },
                    },
                }
            }
        }
    }

    /// Whether the language at `span` is a subtitle language (see
    /// `subtitle_role_of`).
    pub fn subtitle_role(&self, span: (usize, usize)) -> (r: bool)
        requires
            matches_in(SUBTITLE_FILE@, self.text()) || span.0 <= span.1 <= self.text().len(),
        ensures
            r == self.subtitle_role_of((span.0 as int, span.1 as int)),
    {
        proof {
            use_type_invariant(self);
            self.facts();
        }
        let ghost sv = (span.0 as int, span.1 as int);
        let t = self.title.as_bytes();
        if has_match(SUBTITLE_FILE, t) {
            return true;
        }
        // cut the span at the end of its innermost block
        let mut end = span.1;
        let mut k: usize = 0;
        let mut cut = false;
        while k < self.blocks.len() && !cut
            invariant
                k <= self.blocks@.len(),
                self.blocks@.len() == self.blocks().len(),
                forall|i: int|
                    0 <= i < self.blocks@.len() ==> (#[trigger] self.blocks@[i]).0 as int == self.blocks()[i].0
                        && self.blocks@[i].1 as int == self.blocks()[i].1,
                !cut ==> self.enclosing_end(span.0 as int, 0) == self.enclosing_end(span.0 as int, k as int),
                !cut ==> end == span.1,
                cut ==> end == self.role_end(sv),
                sv == (span.0 as int, span.1 as int),
                span.0 <= end <= span.1,
            decreases self.blocks@.len() - k + if cut { 0int } else { 1int },
        {
            let (left, right) = self.blocks[k];
            if left < span.0 && span.0 < right {
                if right < end {
                    end = right;
                }
                cut = true;
            } else {
                k = k + 1;
            }
        }
        assert(end == self.role_end(sv));
        let start = span.0;
        let text = &t[start..end];
        let audio_marker = full(AUDIO_MARKER, text);
        if full(MULTI_SUB, text) {
            return true;
        }
        let list_label = self.is_language_list(end) && has_match(SUBS_AT_END, text);
        if !list_label && has_match(SUBTITLE_WORD, text) {
            return true;
        }
        if self.subtitle_annotation(end, None) {
            return true;
        }
        // the innermost labelled block around the span
        let mut k: usize = 0;
        while k < self.blocks.len()
            invariant
                k <= self.blocks@.len(),
                start <= end <= t@.len(),
                t@ == self.text(),
                self.blocks@.len() == self.blocks().len(),
                forall|i: int| 0 <= i < self.blocks().len() ==> block_ok(self.text(), #[trigger] self.blocks()[i]),
                forall|i: int|
                    0 <= i < self.blocks@.len() ==> (#[trigger] self.blocks@[i]).0 as int == self.blocks()[i].0
                        && self.blocks@[i].1 as int == self.blocks()[i].1,
                self.block_label_role(start as int, end as int, audio_marker, 0)
                    == self.block_label_role(start as int, end as int, audio_marker, k as int),
                !matches_in(SUBTITLE_FILE@, t@),
                sv == (span.0 as int, span.1 as int),
                start == span.0,
                end == self.role_end(sv),
                audio_marker == fully_matches(AUDIO_MARKER@, t@.subrange(start as int, end as int)),
                !fully_matches(MULTI_SUB@, t@.subrange(start as int, end as int)),
                !(!(self.language_list_at(end as int) && matches_in(SUBS_AT_END@, t@.subrange(start as int, end as int)))
                    && matches_in(SUBTITLE_WORD@, t@.subrange(start as int, end as int))),
                !self.annotated_at(end as int, None),
            decreases self.blocks@.len() - k,
        {
            let (left, right) = self.blocks[k];
            assert(block_ok(self.text(), self.blocks()[k as int]));
            if left < start && end <= right {
                let prefix = self.context_text(left + 1, start);
                let labels = self.labels(prefix.as_slice(), audio_marker);
                if labels.len() > 0 {
                    assert(view_spans(labels@).last() == view_span(labels@[labels@.len() - 1]));
                    return !has_match(AUDIO_LABEL, labels[labels.len() - 1].2.as_slice());
                }
            }
            k = k + 1;
        }
        // the context before the span
        let mut from: usize = 0;
        if !self.labelled((start, end)) {
            if start < self.title_end {
                return false;
            }
            from = self.title_end;
            let mut i: usize = 0;
            while i < self.records.len()
                invariant
                    i <= self.records@.len(),
                    self.records@ == self.records(),
                    from == self.anchor_start(start as int, i as int),
                decreases self.records@.len() - i,
            {
                let r = &self.records[i];
                if anchor_field(r.field.as_str()) && r.end <= start && r.end > from {
                    from = r.end;
                }
                i = i + 1;
            }
        }
        assert(self.role_context_start(start as int, end as int) == Some(from as int));
        assert(from <= start) by {
            if !self.labelled_span((start as int, end as int)) {
                self.anchor_start_bounds(start as int, self.records().len() as int);
            }
        }
        let prefix = self.context_text(from, start);
        proof {
            self.masked_len(from as int, start as int, self.blocks().len() as int);
        }
        let labels = self.labels(prefix.as_slice(), audio_marker);
        if labels.len() > 0 {
            let last = &labels[labels.len() - 1];
            assert(view_spans(labels@).last() == view_span(*last));
            assert(well_placed(prefix@, (last.0 as int, last.1 as int)));
            let e = from + last.1;
            // the outermost block around the span
            let mut outer: Option<usize> = None;
            let mut k: usize = 0;
            while k < self.blocks.len()
                invariant
                    k <= self.blocks@.len(),
                    self.blocks@.len() == self.blocks().len(),
                    forall|i: int|
                        0 <= i < self.blocks@.len() ==> (#[trigger] self.blocks@[i]).0 as int == self.blocks()[i].0
                            && self.blocks@[i].1 as int == self.blocks()[i].1,
                    match outer {
                        Some(x) => self.outer_left(start as int, end as int, k as int) == Some(x as int),
                        None => self.outer_left(start as int, end as int, k as int) is None,
                    },
                    t@ == self.text(),
                    forall|i: int| 0 <= i < self.blocks().len() ==> block_ok(self.text(), #[trigger] self.blocks()[i]),
                    outer matches Some(x) ==> x < t@.len(),
                decreases self.blocks@.len() - k,
            {
                let (left, right) = self.blocks[k];
                assert(block_ok(self.text(), self.blocks()[k as int]));
                if left < start && end <= right {
                    outer = match outer {
                        Some(x) => if left < x {
                            Some(left)
                        } else {
                            Some(x)
                        },
                        None => Some(left),
                    };
                }
                k = k + 1;
            }
            let separated = match outer {
                None => true,
                Some(l) => e <= l && full(SEPARATORS, &t[e..l]),
            };
            if separated {
                return !has_match(AUDIO_LABEL, last.2.as_slice());
            }
        }
        match find(SUBTITLE_AFTER, &t[end..t.len()]) {
            Some(m) => !self.is_language_list(end + m.1),
            None => false,
        }
    }

    proof fn masked_len(&self, start: int, end: int, k: int)
        requires
            0 <= start <= end <= self.text().len(),
            k <= self.blocks().len(),
        ensures
            self.masked(start, end, k).len() == end - start,
        decreases k,
    {
        if k > 0 {
            self.masked_len(start, end, k - 1);
        }
    }

    proof fn anchor_start_bounds(&self, p: int, k: int)
        requires
            0 <= k <= self.records().len(),
            self.title_end() <= p,
        ensures
            self.title_end() <= self.anchor_start(p, k) <= p,
        decreases k,
    {
        if k > 0 {
            self.anchor_start_bounds(p, k - 1);
        }
    }
    // ------------------------------------------------------------- accessors

    /// The title.
    pub fn title_str(&self) -> (r: &'a str)
        ensures
            r.spec_bytes() == self.text(),
    {
        self.title
    }

    /// The records of earlier matches.
    pub fn record_list(&self) -> (r: &'a [Record])
        ensures
            r@ == self.records(),
    {
        self.records
    }

    /// Where the title proper ends.
    pub fn end_of_title(&self) -> (r: usize)
        ensures
            r == self.title_end(),
    {
        self.title_end
    }

    /// The title's blocks, innermost first.
    pub fn block_list(&self) -> (r: &Vec<(usize, usize)>)
        ensures
            view_blocks(r@) == self.blocks(),
            forall|i: int| 0 <= i < self.blocks().len() ==> block_ok(self.text(), #[trigger] self.blocks()[i]),
    {
        proof {
            use_type_invariant(self);
            self.facts();
        }
        &self.blocks
    }

    /// The language data and patterns.
    pub fn lexicon_ref(&self) -> (r: &'a Lexicon)
        ensures
            *r == self.lexicon(),
    {
        self.lexicon
    }

    /// The bytes of the title are valid UTF-8.
    pub proof fn text_valid(&self)
        ensures
            valid_utf8(self.text()),
    {
        encode_utf8_valid_utf8(self.title@);
    }

    // ------------------------------------------------------ labelled regions

    /// `c` is a known regional code that starts before `span`, ends with it
    /// and is labelled.
    pub open spec fn region_label(&self, span: (int, int), c: (int, int, Seq<u8>)) -> bool {
        &&& c.0 < span.0
        &&& span.1 == c.1
        &&& regional(self.lexicon().data, decode_utf8(c.2)) is Some
        &&& self.labelled_span((c.0, c.1))
    }

    /// Some code of `cs` is a labelled region ending `span`.
    pub open spec fn any_region_label(&self, span: (int, int), cs: Seq<(int, int, Seq<u8>)>) -> bool {
        exists|i: int| 0 <= i < cs.len() && self.region_label(span, #[trigger] cs[i])
    }

    /// Whether `span` ends a labelled regional code that starts before it.
    pub open spec fn labelled_region_at(&self, span: (int, int)) -> Result<bool, Seq<char>> {
        match spans_of(REGIONAL_CODE@, self.text()) {
            Ok(cs) => Ok(self.any_region_label(span, cs)),
            Err(m) => Err(m),
        }
    }

    /// Whether `span` ends a labelled regional code that starts before it
    /// (see `labelled_region_at`); a failed search is the error.
    pub fn is_labelled_language_region(&self, span: (usize, usize)) -> (r: Result<bool, ParseError>)
        ensures
            match r {
                Ok(b) => self.labelled_region_at((span.0 as int, span.1 as int)) == Ok::<bool, Seq<char>>(b),
                Err(e) => self.labelled_region_at((span.0 as int, span.1 as int)) == Err::<bool, Seq<char>>(message(e)),
            },
    {
        let ghost sv = (span.0 as int, span.1 as int);
        let t = self.title.as_bytes();
        proof {
            self.text_valid();
        }
        let cs = match spans(REGIONAL_CODE, t) {
            Ok(v) => v,
            Err(e) => return Err(e),
        };
        let ghost cv = view_spans(cs@);
        let mut i: usize = 0;
        while i < cs.len()
            invariant
                i <= cs@.len(),
                cv == view_spans(cs@),
                t@ == self.text(),
                valid_utf8(t@),
                spans_placed(t@, cv),
                span_texts_valid(t@, cv),
                sv == (span.0 as int, span.1 as int),
                spans_of(REGIONAL_CODE@, t@) == Ok::<Seq<(int, int, Seq<u8>)>, Seq<char>>(cv),
                forall|j: int| 0 <= j < i ==> !self.region_label(sv, #[trigger] cv[j]),
            decreases cs@.len() - i,
        {
            assert(cv[i as int] == view_span(cs@[i as int]));
            assert(well_placed(t@, (cv[i as int].0, cv[i as int].1)));
            let (start, end) = (cs[i].0, cs[i].1);
            if start < span.0 && span.1 == end {
                let code = text_of(cs[i].2.as_slice());
                if regional_language(code.as_str(), &self.lexicon.data).is_some() && self.labelled(
                    (start, end),
                ) {
                    assert(self.region_label(sv, cv[i as int]));
                    assert(self.any_region_label(sv, cv));
                    assert(spans_of(REGIONAL_CODE@, self.text()) == Ok::<Seq<(int, int, Seq<u8>)>, Seq<char>>(cv));
                    return Ok(true);
                }
            }
            i = i + 1;
        }
        Ok(false)
    }

    /// Some match of the `k`-th language pattern is labelled.
    pub open spec fn pattern_labelled(&self, k: int) -> bool {
        let ss = spans_or_empty(self.lexicon().patterns@[k].1@, self.text());
        exists|i: int| 0 <= i < ss.len() && self.labelled_span(((#[trigger] ss[i]).0, ss[i].1))
    }

    /// `c` is a known regional code that is labelled.
    pub open spec fn labelled_code(&self, c: (int, int, Seq<u8>)) -> bool {
        regional(self.lexicon().data, decode_utf8(c.2)) is Some && self.labelled_span((c.0, c.1))
    }

    /// Some language named in the title is labelled: by a language pattern or
    /// as a known regional code.
    pub open spec fn labelled_languages(&self) -> bool {
        let cs = spans_or_empty(REGIONAL_CODE@, self.text());
        ||| exists|k: int|
            0 <= k < self.lexicon().patterns@.len() && #[trigger] self.pattern_labelled(k)
        ||| exists|i: int| 0 <= i < cs.len() && self.labelled_code(#[trigger] cs[i])
    }

    /// Whether some language named in the title is labelled (see
    /// `labelled_languages`); failed searches count as no match.
    pub fn has_labelled_languages(&self) -> (r: bool)
        ensures
            r == self.labelled_languages(),
    {
        let t = self.title.as_bytes();
        proof {
            self.text_valid();
        }
        let patterns = &self.lexicon.patterns;
        let mut k: usize = 0;
        while k < patterns.len()
            invariant
                k <= patterns@.len(),
                patterns@ == self.lexicon().patterns@,
                t@ == self.text(),
                forall|j: int| 0 <= j < k ==> !#[trigger] self.pattern_labelled(j),
            decreases patterns@.len() - k,
        {
            let ss = match spans(patterns[k].1.as_str(), t) {
                Ok(v) => v,
                Err(_) => Vec::new(),
            };
            let ghost sv = view_spans(ss@);
            assert(sv == spans_or_empty(patterns@[k as int].1@, t@));
            let mut i: usize = 0;
            while i < ss.len()
                invariant
                    i <= ss@.len(),
                    sv == view_spans(ss@),
                    sv == spans_or_empty(patterns@[k as int].1@, t@),
                    spans_placed(t@, sv),
                    t@ == self.text(),
                    k < patterns@.len(),
                    patterns@ == self.lexicon().patterns@,
                    forall|j: int| 0 <= j < i ==> !self.labelled_span(((#[trigger] sv[j]).0, sv[j].1)),
                decreases ss@.len() - i,
            {
                assert(sv[i as int] == view_span(ss@[i as int]));
                assert(well_placed(t@, (sv[i as int].0, sv[i as int].1)));
                if self.labelled((ss[i].0, ss[i].1)) {
                    assert(self.pattern_labelled(k as int));
                    return true;
                }
                i = i + 1;
            }
            k = k + 1;
        }
        let cs = match spans(REGIONAL_CODE, t) {
            Ok(v) => v,
            Err(_) => Vec::new(),
        };
        let ghost cv = view_spans(cs@);
        assert(cv == spans_or_empty(REGIONAL_CODE@, t@));
        let mut i: usize = 0;
        while i < cs.len()
            invariant
                i <= cs@.len(),
                cv == view_spans(cs@),
                cv == spans_or_empty(REGIONAL_CODE@, t@),
                t@ == self.text(),
                valid_utf8(t@),
                spans_placed(t@, cv),
                span_texts_valid(t@, cv),
                forall|j: int| 0 <= j < patterns@.len() ==> !#[trigger] self.pattern_labelled(j),
                patterns@ == self.lexicon().patterns@,
                forall|j: int| 0 <= j < i ==> !self.labelled_code(#[trigger] cv[j]),
            decreases cs@.len() - i,
        {
            assert(cv[i as int] == view_span(cs@[i as int]));
            assert(well_placed(t@, (cv[i as int].0, cv[i as int].1)));
            let code = text_of(cs[i].2.as_slice());
            if regional_language(code.as_str(), &self.lexicon.data).is_some() && self.labelled(
                (cs[i].0, cs[i].1),
            ) {
                assert(self.labelled_code(cv[i as int]));
                return true;
            }
            i = i + 1;
        }
        false
    }

    // ------------------------------------------------------------ exclusion

    /// A site record encloses `span`.
    pub open spec fn inside_site(r: Record, span: (int, int)) -> bool {
        r.field@ == "site"@ && r.start <= span.0 && span.1 <= r.end
    }

    /// `span` lies inside a site record, or inside a web address or the word
    /// sci-fi.
    pub open spec fn excluded_at(&self, span: (int, int)) -> bool {
        let rs = self.records();
        let ss = spans_or_empty(SITE_OR_GENRE@, self.text());
        ||| exists|i: int| 0 <= i < rs.len() && Self::inside_site(#[trigger] rs[i], span)
        ||| exists|i: int|
            0 <= i < ss.len() && (#[trigger] ss[i]).0 <= span.0 && span.1 <= ss[i].1
    }

    /// Whether `span` is excluded from language detection (see
    /// `excluded_at`).
    pub fn excluded_language_occurrence(&self, span: (usize, usize)) -> (r: bool)
        ensures
            r == self.excluded_at((span.0 as int, span.1 as int)),
    {
        let ghost sv = (span.0 as int, span.1 as int);
        let ghost rs = self.records();
        let mut i: usize = 0;
        while i < self.records.len()
            invariant
                i <= self.records@.len(),
                rs == self.records@,
                sv == (span.0 as int, span.1 as int),
                rs == self.records(),
                forall|j: int| 0 <= j < i ==> !Self::inside_site(#[trigger] rs[j], sv),
            decreases self.records@.len() - i,
        {
            let r = &self.records[i];
            if same(r.field.as_str(), "site") && r.start <= span.0 && span.1 <= r.end {
                assert(Self::inside_site(rs[i as int], sv));
                return true;
            }
            i = i + 1;
        }
        let t = self.title.as_bytes();
        assert(t@ == self.text());
        let ss = match spans(SITE_OR_GENRE, t) {
            Ok(v) => v,
            Err(_) => Vec::new(),
        };
        let ghost sw = view_spans(ss@);
        assert(sw == spans_or_empty(SITE_OR_GENRE@, t@));
        let mut i: usize = 0;
        while i < ss.len()
            invariant
                i <= ss@.len(),
                sw == view_spans(ss@),
                sw == spans_or_empty(SITE_OR_GENRE@, self.text()),
                sv == (span.0 as int, span.1 as int),
                forall|j: int| 0 <= j < i ==> !((#[trigger] sw[j]).0 <= sv.0 && sv.1 <= sw[j].1),
            decreases ss@.len() - i,
        {
            assert(sw[i as int] == view_span(ss@[i as int]));
            if ss[i].0 <= span.0 && span.1 <= ss[i].1 {
                assert(sw[i as int].0 <= sv.0 && sv.1 <= sw[i as int].1);
                return true;
            }
            i = i + 1;
        }
        false
    }
}

/// The pattern of a role label word.
pub fn role_pattern() -> (r: &'static str)
    ensures
        r@ == ROLE@,
{
    ROLE
}

} // verus!

