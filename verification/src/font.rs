//! The font aggregate and the path-keyed font cache.
//!
//! A [`Font`] owns the decoded glyph list and the character map of one
//! parsed file and resolves a character to a glyph, falling back to glyph 0
//! (".notdef") for unmapped characters and out-of-range indices. A
//! [`FontLoader`] caches fonts by path with explicit reference counts: a
//! load of a path somebody still holds returns the cached entry, releasing
//! drops a hold, and an explicit sweep evicts entries nobody holds. Reading
//! the file itself is the caller's business: the cache hands out fonts and
//! decides when a fresh parse is needed.

use vstd::prelude::*;

use crate::glyphs::{glyphs_model, load_glyphs, spec_load_glyphs, Glyph};
use crate::mapping::{load_cmap, spec_glyph_index, spec_load_cmap, CharacterMap};

verus! {

/// The fixed global scaling factor of a font, as a rational number. The
/// decoded outlines keep font units; rendering applies this scale.
pub struct FontInfo {
    pub scale_numerator: u32,
    pub scale_denominator: u32,
}

/// An immutable aggregate of a scaling factor, a character map and the
/// decoded glyphs of one font file, in glyph-index order.
pub struct Font {
    font_info: FontInfo,
    character_map: CharacterMap,
    glyphs: Vec<Glyph>,
}

impl Font {
    /// The character map, as the mapping it decodes to.
    pub closed spec fn spec_char_map(&self) -> Map<u32, u16> {
        self.character_map@
    }

    /// The scaling factor, as a (numerator, denominator) pair.
    pub closed spec fn spec_scaling_factor(&self) -> (u32, u32) {
        (self.font_info.scale_numerator, self.font_info.scale_denominator)
    }

    /// The global scaling factor a renderer applies to this font's units.
    pub fn scaling_factor(&self) -> (r: (u32, u32))
        ensures
            r == self.spec_scaling_factor(),
    {
        (self.font_info.scale_numerator, self.font_info.scale_denominator)
    }

    /// The decoded glyphs, in glyph-index order.
    pub closed spec fn spec_glyphs(&self) -> Seq<Glyph> {
        self.glyphs@
    }

    pub open spec fn wf(&self) -> bool {
        forall|i: int|
            0 <= i < self.spec_glyphs().len() ==> (#[trigger] self.spec_glyphs()[i]).wf()
    }

    /// Parse a whole font from its file bytes: glyphs first, then the
    /// character map. Either failing structurally fails the font.
    pub fn from_bytes(data: &[u8]) -> (r: Option<Font>)
        ensures
            match r {
                Some(f) => {
                    &&& spec_load_glyphs(data@) == Some(glyphs_model(f.spec_glyphs()))
                    &&& spec_load_cmap(data@) == Some(f.spec_char_map())
                    &&& f.wf()
                },
                None => spec_load_glyphs(data@) is None || spec_load_cmap(data@) is None,
            },
    {
        let glyphs = match load_glyphs(data) {
            Some(v) => v,
            None => {
                return None;
            },
        };
        let character_map = match load_cmap(data) {
            Some(v) => v,
            None => {
                return None;
            },
        };
        Some(
            Font {
                font_info: FontInfo { scale_numerator: 1, scale_denominator: 1 },
                character_map,
                glyphs,
            },
        )
    }

    /// How many glyphs the font holds.
    pub fn glyph_count(&self) -> (n: usize)
        ensures
            n == self.spec_glyphs().len(),
    {
        self.glyphs.len()
    }

    /// The glyph at index `i`, for callers that walk the glyph list.
    pub fn glyph_at(&self, i: usize) -> (r: &Glyph)
        requires
            i < self.spec_glyphs().len(),
        ensures
            r == self.spec_glyphs()[i as int],
    {
        &self.glyphs[i]
    }

    /// The glyph a character resolves to: the mapped index, or glyph 0 when
    /// the character is unmapped or the mapped index lies out of range. A
    /// font with no glyphs at all has nothing to fall back to, so it cannot
    /// be asked.
    pub fn get_glyph(&self, c: char) -> (r: &Glyph)
        requires
            self.spec_glyphs().len() > 0,
        ensures
            ({
                let idx = spec_glyph_index(self.spec_char_map(), c as u32) as int;
                if idx < self.spec_glyphs().len() {
                    r == self.spec_glyphs()[idx]
                } else {
                    r == self.spec_glyphs()[0]
                }
            }),
    {
        let index = self.character_map.glyph_index(c as u32);
        if (index as usize) < self.glyphs.len() {
            &self.glyphs[index as usize]
        } else {
            &self.glyphs[0]
        }
    }
}

/// One cached font: the path it was parsed from, the font, how many holders
/// still use it, and an id unique per parse, so two loads of one entry are
/// recognizably the same instance.
pub struct FontEntry {
    pub path: String,
    pub font: Font,
    pub holders: u64,
    pub id: u64,
}

/// No two entries share a path or an id.
pub open spec fn entries_distinct(s: Seq<FontEntry>) -> bool {
    forall|i: int, j: int|
        #![trigger s[i], s[j]]
        0 <= i < j < s.len() ==> s[i].path@ != s[j].path@ && s[i].id != s[j].id
}

/// The index of the first entry at or after `i` whose path is `p`.
pub open spec fn spec_find_path(s: Seq<FontEntry>, p: Seq<char>, i: int) -> Option<int>
    decreases s.len() - i,
{
    if i < 0 || i >= s.len() {
        None
    } else if s[i].path@ == p {
        Some(i)
    } else {
        spec_find_path(s, p, i + 1)
    }
}

/// An entry holds a live font: somebody still holds it.
pub open spec fn entry_live(e: FontEntry) -> bool {
    e.holders > 0
}

/// A cache of parsed fonts keyed by file path, with explicit reference
/// counts and explicit eviction: entries are created by [`FontLoader::insert`]
/// after the caller parsed a file, handed out again by
/// [`FontLoader::lookup`] while held, and removed only by
/// [`FontLoader::cleanup_unused_fonts`].
pub struct FontLoader {
    entries: Vec<FontEntry>,
    next_id: u64,
}

impl FontLoader {
    /// The cached entries.
    pub closed spec fn spec_entries(&self) -> Seq<FontEntry> {
        self.entries@
    }

    /// The id the next insert will hand out.
    pub closed spec fn spec_next_id(&self) -> u64 {
        self.next_id
    }

    /// Paths and ids are unique, and every id was handed out before
    /// `spec_next_id`.
    pub open spec fn wf(&self) -> bool {
        &&& entries_distinct(self.spec_entries())
        &&& forall|i: int|
            0 <= i < self.spec_entries().len() ==> (#[trigger] self.spec_entries()[i]).id
                < self.spec_next_id()
    }

    /// The id the next insert will hand out, so a caller can see that the
    /// id space is not exhausted.
    pub fn next_id(&self) -> (id: u64)
        ensures
            id == self.spec_next_id(),
    {
        self.next_id
    }

    /// An empty cache.
    pub fn new() -> (r: FontLoader)
        ensures
            r.wf(),
            r.spec_entries().len() == 0,
    {
        FontLoader { entries: Vec::new(), next_id: 0 }
    }

    /// Find the entry for `path`, dead or alive.
    fn find_index(&self, path: &str) -> (r: Option<usize>)
        ensures
            match r {
                Some(i) => spec_find_path(self.spec_entries(), path@, 0) == Some(i as int),
                None => spec_find_path(self.spec_entries(), path@, 0) is None,
            },
    {
        let n = self.entries.len();
        for i in 0..n
            invariant
                n == self.entries@.len(),
                spec_find_path(self.entries@, path@, 0) == spec_find_path(
                    self.entries@,
                    path@,
                    i as int,
                ),
        {
            let owned: String = path.to_owned();
            if owned == self.entries[i].path {
                return Some(i);
            }
        }
        None
    }

    /// Look `path` up in the cache: while somebody still holds the entry,
    /// the load hits it (the caller becomes one more holder, and no fresh
    /// parse happens); a dead or missing entry is a miss, and the caller
    /// parses the file and inserts the result.
    pub fn lookup(&mut self, path: &str) -> (r: Option<u64>)
        requires
            old(self).wf(),
        ensures
            final(self).wf(),
            final(self).spec_next_id() == old(self).spec_next_id(),
            match r {
                Some(id) => {
                    let i = spec_find_path(old(self).spec_entries(), path@, 0)->Some_0;
                    let e = old(self).spec_entries()[i];
                    &&& spec_find_path(old(self).spec_entries(), path@, 0) is Some
                    &&& entry_live(e)
                    &&& e.holders < u64::MAX
                    &&& id == e.id
                    &&& final(self).spec_entries() == old(self).spec_entries().update(
                        i,
                        (FontEntry { holders: (e.holders + 1) as u64, ..e }),
                    )
                },
                None => {
                    &&& *final(self) == *old(self)
                    &&& match spec_find_path(old(self).spec_entries(), path@, 0) {
                        Some(i) => !entry_live(old(self).spec_entries()[i]) || old(
                            self,
                        ).spec_entries()[i].holders == u64::MAX,
                        None => true,
                    }
                },
            },
    {
        let idx = match self.find_index(path) {
            Some(i) => i,
            None => {
                return None;
            },
        };
        proof {
            lemma_find_path_range(self.entries@, path@, 0);
        }
        if self.entries[idx].holders == 0 || self.entries[idx].holders == u64::MAX {
            return None;
        }
        let id = self.entries[idx].id;
        let e = &mut self.entries[idx];
        e.holders = e.holders + 1;
        Some(id)
    }

    /// Cache a freshly parsed font for `path` with one holder (the caller),
    /// under a new id: a re-parse is a new instance. An earlier, dead entry
    /// for the path is replaced.
    pub fn insert(&mut self, path: &str, font: Font) -> (id: u64)
        requires
            old(self).wf(),
            old(self).spec_next_id() < u64::MAX,
        ensures
            final(self).wf(),
            id == old(self).spec_next_id(),
            final(self).spec_next_id() == old(self).spec_next_id() + 1,
            ({
                let n = old(self).spec_entries().len() as int;
                let slot = match spec_find_path(old(self).spec_entries(), path@, 0) {
                    Some(i) => i,
                    None => n,
                };
                &&& final(self).spec_entries().len() == (if slot == n {
                    n + 1
                } else {
                    n
                })
                &&& final(self).spec_entries()[slot].path@ == path@
                &&& final(self).spec_entries()[slot].font == font
                &&& final(self).spec_entries()[slot].holders == 1
                &&& final(self).spec_entries()[slot].id == id
                &&& forall|j: int|
                    0 <= j < n && j != slot ==> final(self).spec_entries()[j] == old(
                        self,
                    ).spec_entries()[j]
            }),
    {
        let id = self.next_id;
        self.next_id = self.next_id + 1;
        let entry = FontEntry { path: path.to_owned(), font, holders: 1, id };
        match self.find_index(path) {
            Some(i) => {
                proof {
                    lemma_find_path_range(self.entries@, path@, 0);
                }
                let slot = &mut self.entries[i];
                *slot = entry;
            },
            None => {
                proof {
                    lemma_find_path_none(self.entries@, path@, 0);
                }
                self.entries.push(entry);
            },
        }
        id
    }

    /// The cached font under `id`, while it exists.
    pub fn font(&self, id: u64) -> (r: Option<&Font>)
        ensures
            match r {
                Some(f) => exists|i: int|
                    0 <= i < self.spec_entries().len() && (#[trigger] self.spec_entries()[i]).id
                        == id && *f == self.spec_entries()[i].font,
                None => forall|i: int|
                    0 <= i < self.spec_entries().len() ==> (#[trigger] self.spec_entries()[i]).id
                        != id,
            },
    {
        let n = self.entries.len();
        for i in 0..n
            invariant
                n == self.entries@.len(),
                forall|j: int|
                    0 <= j < i ==> (#[trigger] self.entries@[j]).id != id,
        {
            if self.entries[i].id == id {
                proof {
                    assert(self.spec_entries()[i as int].id == id);
                }
                return Some(&self.entries[i].font);
            }
        }
        None
    }

    /// Drop one hold on the entry for `path`. With the last hold gone the
    /// entry is dead: a later load misses, and the sweep removes it.
    pub fn release(&mut self, path: &str)
        requires
            old(self).wf(),
        ensures
            final(self).wf(),
            final(self).spec_next_id() == old(self).spec_next_id(),
            match spec_find_path(old(self).spec_entries(), path@, 0) {
                Some(i) => {
                    let e = old(self).spec_entries()[i];
                    final(self).spec_entries() == (if e.holders > 0 {
                        old(self).spec_entries().update(
                            i,
                            (FontEntry { holders: (e.holders - 1) as u64, ..e }),
                        )
                    } else {
                        old(self).spec_entries()
                    })
                },
                None => final(self).spec_entries() == old(self).spec_entries(),
            },
    {
        let idx = match self.find_index(path) {
            Some(i) => i,
            None => {
                return ;
            },
        };
        proof {
            lemma_find_path_range(self.entries@, path@, 0);
        }
        if self.entries[idx].holders > 0 {
            let e = &mut self.entries[idx];
            e.holders = e.holders - 1;
        }
    }

    /// Sweep the cache: remove every entry nobody holds any more. Never
    /// runs implicitly.
    pub fn cleanup_unused_fonts(&mut self)
        requires
            old(self).wf(),
        ensures
            final(self).wf(),
            final(self).spec_next_id() == old(self).spec_next_id(),
            final(self).spec_entries() == old(self).spec_entries().filter(
                |e: FontEntry| entry_live(e),
            ),
    {
        let ghost orig = self.entries@;
        let mut reversed: Vec<FontEntry> = Vec::new();
        while self.entries.len() > 0
            invariant
                orig == self.entries@ + reversed@.reverse(),
                self.next_id == old(self).spec_next_id(),
            decreases self.entries@.len(),
        {
            let e = self.entries.pop().unwrap();
            reversed.push(e);
            proof {
                assert(orig =~= self.entries@ + reversed@.reverse());
            }
        }
        proof {
            assert(reversed@.reverse() =~= orig.skip(0));
            assert(orig.take(0) =~= Seq::<FontEntry>::empty());
            assert(self.entries@ =~= orig.take(0).filter(|e: FontEntry| entry_live(e))) by {
                reveal(Seq::filter);
            }
        }
        while reversed.len() > 0
            invariant
                reversed@.len() <= orig.len(),
                reversed@.reverse() == orig.skip(orig.len() - reversed@.len()),
                self.entries@ == orig.take(orig.len() - reversed@.len()).filter(
                    |e: FontEntry| entry_live(e),
                ),
                self.next_id == old(self).spec_next_id(),
            decreases reversed@.len(),
        {
            let ghost k = orig.len() - reversed@.len();
            let ghost rev_pre = reversed@;
            let e = reversed.pop().unwrap();
            proof {
                assert(rev_pre.reverse()[0] == e);
                assert(e == orig.skip(k as int)[0]);
                assert(e == orig[k as int]);
                assert forall|t: int|
                    0 <= t < reversed@.len() implies reversed@.reverse()[t] == orig.skip(k + 1)[t] by {
                    assert(reversed@.reverse()[t] == reversed@[reversed@.len() - 1 - t]);
                    assert(rev_pre.reverse()[t + 1] == orig.skip(k as int)[t + 1]);
                    assert(rev_pre.reverse()[t + 1] == rev_pre[rev_pre.len() - 1 - (t + 1)]);
                }
                assert(reversed@.reverse() =~= orig.skip(k + 1));
            }
            let ghost eg = e;
            let keep = e.holders > 0;
            if keep {
                self.entries.push(e);
            }
            proof {
                reveal(Seq::filter);
                assert(orig.take(k + 1).drop_last() =~= orig.take(k as int));
                assert(orig.take(k + 1).last() == orig[k as int]);
                if keep {
                    assert(self.entries@ =~= orig.take(k as int).filter(
                        |en: FontEntry| entry_live(en),
                    ).push(eg));
                }
            }
        }
        proof {
            assert(orig.take(orig.len() as int) =~= orig);
            lemma_filter_keeps_distinct(orig, |e: FontEntry| entry_live(e));
            assert forall|i: int|
                0 <= i < self.entries@.len() implies (#[trigger] self.entries@[i]).id
                < self.next_id by {
                let f = orig.filter(|e: FontEntry| entry_live(e));
                assert(orig.contains(f[i]));
                let j = choose|j: int| 0 <= j < orig.len() && orig[j] == f[i];
                assert(orig[j].id < self.next_id);
            }
        }
    }
}

/// A found path index lies in range and names an entry with that path.
proof fn lemma_find_path_range(s: Seq<FontEntry>, p: Seq<char>, i: int)
    requires
        spec_find_path(s, p, i) is Some,
    ensures
        i <= spec_find_path(s, p, i)->Some_0 < s.len(),
        s[spec_find_path(s, p, i)->Some_0].path@ == p,
    decreases s.len() - i,
{
    if 0 <= i < s.len() && s[i].path@ != p {
        lemma_find_path_range(s, p, i + 1);
    }
}

/// When the find misses, no entry at or after `i` has the path.
proof fn lemma_find_path_none(s: Seq<FontEntry>, p: Seq<char>, i: int)
    requires
        spec_find_path(s, p, i) is None,
        0 <= i,
    ensures
        forall|j: int| i <= j < s.len() ==> (#[trigger] s[j]).path@ != p,
    decreases s.len() - i,
{
    if i < s.len() {
        lemma_find_path_none(s, p, i + 1);
    }
}

/// The find from `start` lands on `i` when entry `i` has the path and paths
/// are unique.
proof fn lemma_find_path_hits(s: Seq<FontEntry>, p: Seq<char>, start: int, i: int)
    requires
        entries_distinct(s),
        0 <= start <= i < s.len(),
        s[i].path@ == p,
    ensures
        spec_find_path(s, p, start) == Some(i),
    decreases i - start,
{
    if start < i {
        assert(s[start].path@ != s[i].path@);
        lemma_find_path_hits(s, p, start + 1, i);
    }
}

/// Cache reuse: while somebody still holds the font of a path, a load of
/// that path finds exactly that entry, so the same instance is returned and
/// nothing is re-parsed.
pub proof fn lemma_live_entry_found(s: Seq<FontEntry>, p: Seq<char>, i: int)
    requires
        entries_distinct(s),
        0 <= i < s.len(),
        s[i].path@ == p,
        entry_live(s[i]),
    ensures
        spec_find_path(s, p, 0) == Some(i),
        entry_live(s[spec_find_path(s, p, 0)->Some_0]),
{
    lemma_find_path_hits(s, p, 0, i);
}

/// The find misses when no entry at or after `i` has the path.
proof fn lemma_find_path_misses(s: Seq<FontEntry>, p: Seq<char>, i: int)
    requires
        0 <= i,
        forall|j: int| i <= j < s.len() ==> (#[trigger] s[j]).path@ != p,
    ensures
        spec_find_path(s, p, i) is None,
    decreases s.len() - i,
{
    if i < s.len() {
        lemma_find_path_misses(s, p, i + 1);
    }
}

/// Eviction: once every holder of a path's font has released it and the
/// sweep has run, the path is gone from the cache, so the next load misses
/// and parses the file afresh.
pub proof fn lemma_cleanup_evicts(s: Seq<FontEntry>, p: Seq<char>)
    requires
        entries_distinct(s),
        forall|i: int| 0 <= i < s.len() && (#[trigger] s[i]).path@ == p ==> s[i].holders == 0,
    ensures
        spec_find_path(s.filter(|e: FontEntry| entry_live(e)), p, 0) is None,
{
    let pred = |e: FontEntry| entry_live(e);
    let f = s.filter(pred);
    lemma_filter_keeps_distinct(s, pred);
    assert forall|j: int| 0 <= j < f.len() implies (#[trigger] f[j]).path@ != p by {
        s.lemma_filter_pred(pred, j);
        assert(s.contains(f[j]));
        let a = choose|a: int| 0 <= a < s.len() && s[a] == f[j];
    }
    lemma_find_path_misses(f, p, 0);
}

/// Filtering keeps entries distinct, and every kept entry comes from the
/// unfiltered sequence.
proof fn lemma_filter_keeps_distinct(s: Seq<FontEntry>, pred: spec_fn(FontEntry) -> bool)
    requires
        entries_distinct(s),
    ensures
        entries_distinct(s.filter(pred)),
        forall|i: int| 0 <= i < s.filter(pred).len() ==> s.contains(#[trigger] s.filter(pred)[i]),
    decreases s.len(),
{
    reveal(Seq::filter);
    if s.len() > 0 {
        let sub = s.drop_last();
        assert(entries_distinct(sub)) by {
            assert forall|i: int, j: int|
                #![trigger sub[i], sub[j]]
                0 <= i < j < sub.len() implies sub[i].path@ != sub[j].path@ && sub[i].id
                != sub[j].id by {
                assert(s[i] == sub[i]);
                assert(s[j] == sub[j]);
            }
        }
        lemma_filter_keeps_distinct(sub, pred);
        let fs = s.filter(pred);
        let fsub = sub.filter(pred);
        assert forall|i: int| 0 <= i < fs.len() implies s.contains(#[trigger] fs[i]) by {
            if pred(s.last()) && i == fs.len() - 1 {
                assert(fs[i] == s[s.len() - 1]);
            } else {
                assert(fs[i] == fsub[i]);
                assert(sub.contains(fsub[i]));
                let j = choose|j: int| 0 <= j < sub.len() && sub[j] == fsub[i];
                assert(s[j] == fsub[i]);
            }
        }
        assert forall|i: int, j: int|
            #![trigger fs[i], fs[j]]
            0 <= i < j < fs.len() implies fs[i].path@ != fs[j].path@ && fs[i].id != fs[j].id by {
            if pred(s.last()) && j == fs.len() - 1 {
                assert(fs[i] == fsub[i]);
                assert(sub.contains(fsub[i]));
                let a = choose|a: int| 0 <= a < sub.len() && sub[a] == fsub[i];
                assert(s[a] == fs[i]);
                assert(fs[j] == s[s.len() - 1]);
            } else {
                assert(fs[i] == fsub[i]);
                assert(fs[j] == fsub[j]);
            }
        }
    }
}

} // verus!
