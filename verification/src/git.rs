use vstd::prelude::*;

use crate::error::GeError;
use crate::text::{
    all_digits, count_leading_blanks, dec_str, dec_val, find_char_from, find_idx, leading_blanks,
    lemma_find_idx, lemma_find_idx_of_first, lemma_lex_connex, lemma_lex_lt_asym,
    lemma_lex_lt_trans, lex_lt, parse_usize, str_eq, str_lt,
};

verus! {

/// Handle for the search backend; the probe that the backend is actually
/// runnable lives with the process-spawning shell around this library.
pub struct Git;

/// Regex dialect selection for the search backend.
#[derive(Clone, Copy, Debug, PartialEq, Eq, Structural)]
pub enum GrepMode {
    Fixed,
    Extended,
    Basic,
    Pcre,
}

/// Options handed to the search backend.
#[derive(Debug)]
pub struct GrepOptions {
    pub mode: GrepMode,
    pub function: bool,
    pub ignore_case: bool,
    pub word_boundary: bool,
    pub max_depth: Option<usize>,
    pub only: Vec<String>,
    pub exclude: Vec<String>,
}

/// A contiguous run of lines selected in one file.
#[derive(Clone, Copy, Debug, PartialEq, Eq, Structural)]
pub struct GrepHit {
    pub file_id: usize,
    pub from: usize,
    pub n_lines: usize,
    /// The number of leading space and tab characters of the matched line.
    pub level: usize,
}

/// Parsed search output: a deduplicated ascending file table and the hits.
#[derive(Debug)]
pub struct GrepResult {
    pub files: Vec<String>,
    pub hits: Vec<GrepHit>,
}

/// Order of hits within one result: by file then by start line. Because the
/// file table is ascending, ordering by id agrees with ordering by name.
pub open spec fn hit_le(a: GrepHit, b: GrepHit) -> bool {
    a.file_id < b.file_id || (a.file_id == b.file_id && a.from <= b.from)
}

impl GrepResult {
    /// The file names as character sequences.
    pub open spec fn file_names(self) -> Seq<Seq<char>> {
        self.files@.map_values(|f: String| f@)
    }

    /// File names strictly ascending: distinct and sorted by byte order.
    pub open spec fn files_sorted(self) -> bool {
        forall|i: int, j: int|
            0 <= i < j < self.files@.len() ==> lex_lt(self.files@[i]@, self.files@[j]@)
    }

    /// The hit points into the file table and its span fits the machine,
    /// with room to render the start one-based.
    pub open spec fn hit_in_range(self, h: GrepHit) -> bool {
        h.file_id < self.files@.len() && h.from + h.n_lines <= usize::MAX && h.from < usize::MAX
    }

    pub open spec fn hits_sorted(self) -> bool {
        forall|i: int, j: int|
            0 <= i < j < self.hits@.len() ==> hit_le(self.hits@[i], self.hits@[j])
    }

    /// The invariant every algebra step preserves.
    pub open spec fn wf(self) -> bool {
        self.files_sorted() && self.hits_sorted() && forall|i: int|
            0 <= i < self.hits@.len() ==> self.hit_in_range(#[trigger] self.hits@[i])
    }

    /// Every hit spans at least one line.
    pub open spec fn hits_positive(self) -> bool {
        forall|i: int| 0 <= i < self.hits@.len() ==> self.hits@[i].n_lines >= 1
    }
}

/// The views of a sequence of owned strings.
pub open spec fn views_of(v: Seq<String>) -> Seq<Seq<char>> {
    v.map_values(|s: String| s@)
}

/// The flag the search backend takes for each regex dialect.
pub open spec fn mode_flag(m: GrepMode) -> Seq<char> {
    match m {
        GrepMode::Fixed => "--fixed-strings"@,
        GrepMode::Basic => "--basic-regexp"@,
        GrepMode::Extended => "--extended-regexp"@,
        GrepMode::Pcre => "--perl-regexp"@,
    }
}

/// The argument strings `expand_options` appends for `o`, in order.
pub open spec fn option_flags(o: GrepOptions) -> Seq<Seq<char>> {
    seq![mode_flag(o.mode)] + (if o.function {
        seq!["--function-context"@]
    } else {
        Seq::empty()
    }) + (if o.ignore_case {
        seq!["--ignore-case"@]
    } else {
        Seq::empty()
    }) + (if o.word_boundary {
        seq!["--word-regexp"@]
    } else {
        Seq::empty()
    }) + (match o.max_depth {
        Some(d) => seq!["--max-depth="@ + dec_str(d as int)],
        None => Seq::empty(),
    })
}

impl Git {
    /// Construct the handle. Checking that the backend is installed needs a
    /// subprocess, so it is the caller's duty; construction itself cannot fail.
    pub fn new() -> (r: Result<Git, GeError>)
        ensures
            r is Ok,
    {
        Ok(Git)
    }

    /// Append the backend arguments that `opts` calls for.
    pub fn expand_options(&self, opts: &GrepOptions, args: &mut Vec<String>)
        ensures
            views_of(final (args)@) == views_of(old(args)@) + option_flags(*opts),
    {
        let ghost base = views_of(old(args)@);
        args.push(
            match opts.mode {
                GrepMode::Fixed => String::from_str("--fixed-strings"),
                GrepMode::Basic => String::from_str("--basic-regexp"),
                GrepMode::Extended => String::from_str("--extended-regexp"),
                GrepMode::Pcre => String::from_str("--perl-regexp"),
            },
        );
        if opts.function {
            args.push(String::from_str("--function-context"));
        }
        if opts.ignore_case {
            args.push(String::from_str("--ignore-case"));
        }
        if opts.word_boundary {
            args.push(String::from_str("--word-regexp"));
        }
        if let Some(depth) = opts.max_depth {
            let mut flag = String::from_str("--max-depth=");
            crate::text::append_dec(&mut flag, depth as u128);
            args.push(flag);
        }
        proof {
            assert(views_of(args@) =~= base + option_flags(*opts));
        }
    }
}

// ---------------------------------------------------------------------------
// Parsing one line of search output
// ---------------------------------------------------------------------------
/// The line has its two NUL delimiters and a usable 1-based line number.
pub open spec fn parse_line_ok(l: Seq<char>) -> bool {
    let p1 = find_idx(l, '\0');
    p1 >= 0 && {
        let rest = l.skip(p1 + 1);
        let p2 = find_idx(rest, '\0');
        p2 >= 0 && {
            let num = rest.take(p2);
            num.len() > 0 && all_digits(num) && 1 <= dec_val(num) <= usize::MAX
        }
    }
}

/// The file name part: everything before the first NUL.
pub open spec fn parsed_name(l: Seq<char>) -> Seq<char> {
    l.take(find_idx(l, '\0'))
}

/// The zero-based line number.
pub open spec fn parsed_from(l: Seq<char>) -> int {
    let p1 = find_idx(l, '\0');
    let rest = l.skip(p1 + 1);
    dec_val(rest.take(find_idx(rest, '\0'))) - 1
}

/// The indent level of the body: its count of leading blanks.
pub open spec fn parsed_level(l: Seq<char>) -> int {
    let p1 = find_idx(l, '\0');
    let rest = l.skip(p1 + 1);
    leading_blanks(rest.skip(find_idx(rest, '\0') + 1))
}

impl GrepResult {
    /// Split one NUL-delimited search-output line into file name, zero-based
    /// line number, and indent level of the body.
    pub fn parse_line(line: &str) -> (r: Result<(String, usize, usize), GeError>)
        ensures
            match r {
                Ok((name, from, level)) => parse_line_ok(line@) && name@ == parsed_name(line@)
                    && from == parsed_from(line@) && level == parsed_level(line@),
                Err(e) => e == GeError::MalformedGrepLine && !parse_line_ok(line@),
            },
    {
        let n = line.unicode_len();
        let p1 = match find_char_from(line, '\0', 0) {
            Some(i) => i,
            None => {
                proof {
                    lemma_find_idx(line@, '\0');
                    if find_idx(line@, '\0') >= 0 {
                        assert(line@[find_idx(line@, '\0')] == '\0');
                    }
                }
                return Err(GeError::MalformedGrepLine);
            },
        };
        proof {
            lemma_find_idx_of_first(line@, '\0', p1 as int);
        }
        let ghost rest = line@.skip(p1 as int + 1);
        proof {
            assert(forall|k: int| 0 <= k < rest.len() ==> rest[k] == line@[p1 + 1 + k]);
        }
        let p2 = match find_char_from(line, '\0', p1 + 1) {
            Some(i) => i,
            None => {
                proof {
                    lemma_find_idx(rest, '\0');
                    if find_idx(rest, '\0') >= 0 {
                        assert(line@[p1 + 1 + find_idx(rest, '\0')] == '\0');
                    }
                }
                return Err(GeError::MalformedGrepLine);
            },
        };
        proof {
            lemma_find_idx_of_first(rest, '\0', p2 - p1 as int - 1);
        }
        let num = line.substring_char(p1 + 1, p2);
        proof {
            assert(num@ =~= rest.take(p2 - p1 as int - 1));
        }
        let at = match parse_usize(num) {
            Some(v) => v,
            None => {
                return Err(GeError::MalformedGrepLine);
            },
        };
        if at == 0 {
            return Err(GeError::MalformedGrepLine);
        }
        let body = line.substring_char(p2 + 1, n);
        proof {
            assert(body@ =~= rest.skip(p2 - p1 as int - 1 + 1));
        }
        let level = count_leading_blanks(body);
        let name = line.substring_char(0, p1).to_owned();
        proof {
            assert(name@ =~= parsed_name(line@));
        }
        Ok((name, at - 1, level))
    }
}

// ---------------------------------------------------------------------------
// The hit algebra
// ---------------------------------------------------------------------------
/// Whether some file of `files` has exactly the name `name`.
pub open spec fn has_file(files: Seq<String>, name: Seq<char>) -> bool {
    exists|i: int| 0 <= i < files.len() && files[i]@ == name
}

/// The predicate `filter_files` keeps: the hit's file is named in the
/// secondary table, or is not, when inverted.
pub open spec fn file_kept(files: Seq<String>, sec: Seq<String>, invert: bool, h: GrepHit) -> bool {
    invert != has_file(sec, files[h.file_id as int]@)
}

/// The hits of `hits` whose file `filter_files` keeps, in order.
pub open spec fn kept_hits(
    hits: Seq<GrepHit>,
    files: Seq<String>,
    sec: Seq<String>,
    invert: bool,
) -> Seq<GrepHit>
    decreases hits.len(),
{
    if hits.len() == 0 {
        Seq::empty()
    } else {
        let prev = kept_hits(hits.drop_last(), files, sec, invert);
        if file_kept(files, sec, invert, hits.last()) {
            prev.push(hits.last())
        } else {
            prev
        }
    }
}

/// A filtered hit sequence stays sorted, and its hits come from the source.
proof fn lemma_kept_hits(hits: Seq<GrepHit>, files: Seq<String>, sec: Seq<String>, invert: bool)
    requires
        forall|i: int, j: int| 0 <= i < j < hits.len() ==> hit_le(hits[i], hits[j]),
    ensures
        forall|i: int|
            0 <= i < kept_hits(hits, files, sec, invert).len() ==> hits.contains(
                #[trigger] kept_hits(hits, files, sec, invert)[i],
            ),
        forall|i: int, j: int|
            0 <= i < j < kept_hits(hits, files, sec, invert).len() ==> hit_le(
                kept_hits(hits, files, sec, invert)[i],
                kept_hits(hits, files, sec, invert)[j],
            ),
    decreases hits.len(),
{
    let out = kept_hits(hits, files, sec, invert);
    if hits.len() > 0 {
        let s0 = hits.drop_last();
        assert(forall|i: int, j: int| 0 <= i < j < s0.len() ==> hit_le(s0[i], s0[j]));
        lemma_kept_hits(s0, files, sec, invert);
        let out0 = kept_hits(s0, files, sec, invert);
        assert forall|i: int| 0 <= i < out.len() implies hits.contains(#[trigger] out[i]) by {
            if i < out0.len() {
                assert(out[i] == out0[i]);
                let k = choose|k: int| 0 <= k < s0.len() && s0[k] == out0[i];
                assert(hits[k] == out[i]);
            } else {
                assert(out[i] == hits.last());
                assert(hits[hits.len() - 1] == out[i]);
            }
        }
        assert forall|i: int, j: int| 0 <= i < j < out.len() implies hit_le(out[i], out[j]) by {
            if j < out0.len() {
                assert(out[i] == out0[i] && out[j] == out0[j]);
            } else {
                assert(out[j] == hits.last());
                assert(out[i] == out0[i]);
                let k = choose|k: int| 0 <= k < s0.len() && s0[k] == out0[i];
                assert(hit_le(hits[k], hits[hits.len() - 1]));
            }
        }
    }
}

/// Whether `name` occurs in `files`, by character-for-character comparison.
fn contains_file(files: &Vec<String>, name: &str) -> (r: bool)
    ensures
        r == has_file(files@, name@),
{
    let n = files.len();
    let mut i: usize = 0;
    while i < n
        invariant
            0 <= i <= n,
            n == files@.len(),
            forall|k: int| 0 <= k < i ==> files@[k]@ != name@,
        decreases n - i,
    {
        if str_eq(files[i].as_str(), name) {
            return true;
        }
        i = i + 1;
    }
    false
}

/// One zero-based head hit per file that had any hit, `n` lines long.
pub open spec fn head_hits(hits: Seq<GrepHit>, n: usize) -> Seq<GrepHit>
    decreases hits.len(),
{
    if hits.len() == 0 {
        Seq::empty()
    } else {
        let prev = head_hits(hits.drop_last(), n);
        let h = GrepHit { file_id: hits.last().file_id, from: 0, n_lines: n, level: 0 };
        if prev.len() > 0 && prev.last().file_id == h.file_id {
            prev
        } else {
            prev.push(h)
        }
    }
}

proof fn lemma_head_hits(hits: Seq<GrepHit>, n: usize, bound: int)
    requires
        forall|i: int, j: int| 0 <= i < j < hits.len() ==> hit_le(hits[i], hits[j]),
        forall|i: int| 0 <= i < hits.len() ==> (#[trigger] hits[i]).file_id < bound,
    ensures
        forall|i: int|
            0 <= i < head_hits(hits, n).len() ==> (#[trigger] head_hits(hits, n)[i]).from == 0
                && head_hits(hits, n)[i].n_lines == n && head_hits(hits, n)[i].level == 0
                && head_hits(hits, n)[i].file_id < bound,
        forall|i: int, j: int|
            0 <= i < j < head_hits(hits, n).len() ==> head_hits(hits, n)[i].file_id < head_hits(
                hits,
                n,
            )[j].file_id,
        head_hits(hits, n).len() > 0 ==> hits.len() > 0 && head_hits(hits, n).last().file_id
            == hits.last().file_id,
    decreases hits.len(),
{
    if hits.len() > 0 {
        let s0 = hits.drop_last();
        assert(forall|i: int| 0 <= i < s0.len() ==> (#[trigger] s0[i]).file_id < bound);
        lemma_head_hits(s0, n, bound);
        let prev = head_hits(s0, n);
        let out = head_hits(hits, n);
        if !(prev.len() > 0 && prev.last().file_id == hits.last().file_id) {
            if prev.len() > 0 {
                // the last retained id comes from an earlier hit, so it is smaller
                assert(hit_le(s0[s0.len() - 1], hits[hits.len() - 1]));
                assert(prev.last().file_id < hits.last().file_id);
            }
        }
    }
}

/// Whether `t` can anchor the extension of a hit: same file by name, at or
/// below the hit's start, at the same indent level.
pub open spec fn anchor_match(name: Seq<char>, h: GrepHit, to_files: Seq<String>, t: GrepHit) -> bool {
    t.file_id < to_files.len() && to_files[t.file_id as int]@ == name && t.from >= h.from
        && t.level == h.level
}

/// The earliest hit of the secondary result that anchors `h`.
pub open spec fn first_anchor(
    name: Seq<char>,
    h: GrepHit,
    to_files: Seq<String>,
    to_hits: Seq<GrepHit>,
) -> Option<GrepHit>
    decreases to_hits.len(),
{
    if to_hits.len() == 0 {
        None
    } else if anchor_match(name, h, to_files, to_hits[0]) {
        Some(to_hits[0])
    } else {
        first_anchor(name, h, to_files, to_hits.skip(1))
    }
}

/// `h` extended down to the end of its anchor, when one exists.
pub open spec fn extended_hit(
    name: Seq<char>,
    h: GrepHit,
    to_files: Seq<String>,
    to_hits: Seq<GrepHit>,
) -> GrepHit {
    match first_anchor(name, h, to_files, to_hits) {
        Some(t) => GrepHit { n_lines: (t.from + t.n_lines - h.from) as usize, ..h },
        None => h,
    }
}

proof fn lemma_first_anchor_none(
    name: Seq<char>,
    h: GrepHit,
    to_files: Seq<String>,
    to_hits: Seq<GrepHit>,
)
    requires
        forall|k: int| 0 <= k < to_hits.len() ==> !anchor_match(name, h, to_files, to_hits[k]),
    ensures
        first_anchor(name, h, to_files, to_hits) is None,
    decreases to_hits.len(),
{
    if to_hits.len() > 0 {
        let s1 = to_hits.skip(1);
        assert(forall|k: int| 0 <= k < s1.len() ==> s1[k] == to_hits[k + 1]);
        lemma_first_anchor_none(name, h, to_files, s1);
    }
}

proof fn lemma_first_anchor_at(
    name: Seq<char>,
    h: GrepHit,
    to_files: Seq<String>,
    to_hits: Seq<GrepHit>,
    j: int,
)
    requires
        0 <= j < to_hits.len(),
        anchor_match(name, h, to_files, to_hits[j]),
        forall|k: int| 0 <= k < j ==> !anchor_match(name, h, to_files, to_hits[k]),
    ensures
        first_anchor(name, h, to_files, to_hits) == Some(to_hits[j]),
    decreases j,
{
    if j > 0 {
        let s1 = to_hits.skip(1);
        assert(forall|k: int| 0 <= k < s1.len() ==> s1[k] == to_hits[k + 1]);
        lemma_first_anchor_at(name, h, to_files, s1, j - 1);
    }
}

/// The earliest anchor of `h` in `to`, with the facts its user needs.
fn find_anchor(name: &str, h: GrepHit, to: &GrepResult) -> (r: Option<GrepHit>)
    requires
        to.wf(),
    ensures
        r == first_anchor(name@, h, to.files@, to.hits@),
        match r {
            Some(t) => anchor_match(name@, h, to.files@, t) && t.from + t.n_lines <= usize::MAX
                && ((to.hits_positive()) ==> t.n_lines >= 1),
            None => true,
        },
{
    let m = to.hits.len();
    let mut j: usize = 0;
    while j < m
        invariant
            0 <= j <= m,
            to.wf(),
            m == to.hits@.len(),
            forall|k: int| 0 <= k < j ==> !anchor_match(name@, h, to.files@, to.hits@[k]),
        decreases m - j,
    {
        let t = to.hits[j];
        proof {
            assert(to.hit_in_range(to.hits@[j as int]));
        }
        if t.from >= h.from && t.level == h.level && str_eq(to.files[t.file_id].as_str(), name) {
            proof {
                assert(anchor_match(name@, h, to.files@, to.hits@[j as int]));
                lemma_first_anchor_at(name@, h, to.files@, to.hits@, j as int);
                if to.hits_positive() {
                    assert(to.hits@[j as int].n_lines >= 1);
                }
            }
            return Some(t);
        }
        j = j + 1;
    }
    proof {
        lemma_first_anchor_none(name@, h, to.files@, to.hits@);
    }
    None
}

/// Every hit transformed by `extend_by_lines(up, down)`.
pub open spec fn padded_hit(h: GrepHit, up: usize, down: usize) -> GrepHit {
    let start = if h.from >= up {
        (h.from - up) as usize
    } else {
        0
    };
    GrepHit {
        file_id: h.file_id,
        from: start,
        n_lines: (h.from + h.n_lines + down - start) as usize,
        level: h.level,
    }
}

impl GrepResult {
    /// Retain the hits whose file is named (or, inverted, not named) in the
    /// secondary result's file table.
    pub fn filter_files(&mut self, secondary: &GrepResult, invert: bool) -> (r: Result<
        (),
        GeError,
    >)
        requires
            old(self).wf(),
        ensures
            r is Ok,
            final (self).files == old(self).files,
            final (self).hits@ == kept_hits(
                old(self).hits@,
                old(self).files@,
                secondary.files@,
                invert,
            ),
            final (self).wf(),
            old(self).hits_positive() ==> final (self).hits_positive(),
    {
        let mut out: Vec<GrepHit> = Vec::new();
        let n = self.hits.len();
        let mut i: usize = 0;
        proof {
            assert(kept_hits(old(self).hits@.take(0), old(self).files@, secondary.files@, invert)
                =~= Seq::<GrepHit>::empty());
        }
        while i < n
            invariant
                0 <= i <= n,
                self.files == old(self).files,
                self.hits == old(self).hits,
                old(self).wf(),
                n == self.hits@.len(),
                out@ == kept_hits(
                    old(self).hits@.take(i as int),
                    old(self).files@,
                    secondary.files@,
                    invert,
                ),
            decreases n - i,
        {
            let h = self.hits[i];
            proof {
                assert(old(self).hit_in_range(old(self).hits@[i as int]));
            }
            let name = self.files[h.file_id].as_str();
            let c = contains_file(&secondary.files, name);
            let keep = invert != c;
            proof {
                assert(self.hits@.take(i as int + 1).drop_last() =~= self.hits@.take(i as int));
                assert(self.hits@.take(i as int + 1).last() == h);
                assert(name@ == old(self).files@[h.file_id as int]@);
                let target = old(self).files@[h.file_id as int]@;
                if c {
                    let w = choose|k: int|
                        0 <= k < secondary.files@.len() && secondary.files@[k]@ == name@;
                    assert(secondary.files@[w]@ == target);
                    assert(has_file(secondary.files@, target));
                } else if has_file(secondary.files@, target) {
                    let w = choose|k: int|
                        0 <= k < secondary.files@.len() && secondary.files@[k]@ == target;
                    assert(secondary.files@[w]@ == name@);
                    assert(has_file(secondary.files@, name@));
                }
                assert(c == has_file(secondary.files@, old(self).files@[h.file_id as int]@));
                assert(keep == file_kept(old(self).files@, secondary.files@, invert, h));
            }
            if keep {
                out.push(h);
            }
            i = i + 1;
        }
        proof {
            assert(self.hits@.take(n as int) =~= self.hits@);
            lemma_kept_hits(self.hits@, old(self).files@, secondary.files@, invert);
        }
        self.hits = out;
        proof {
            assert forall|i: int|
                0 <= i < self.hits@.len() implies self.hit_in_range(
                #[trigger] self.hits@[i],
            ) && (old(self).hits_positive() ==> self.hits@[i].n_lines >= 1) by {
                let k = choose|k: int|
                    0 <= k < old(self).hits@.len() && old(self).hits@[k] == self.hits@[i];
                assert(old(self).hit_in_range(old(self).hits@[k]));
            }
        }
        Ok(())
    }

    /// Replace every hit with the head of its file: `n_lines` lines from line
    /// zero, one hit per file.
    pub fn collect_head(&mut self, n_lines: usize) -> (r: Result<(), GeError>)
        requires
            old(self).wf(),
        ensures
            r is Ok,
            final (self).files == old(self).files,
            final (self).hits@ == head_hits(old(self).hits@, n_lines),
            final (self).wf(),
            n_lines >= 1 ==> final (self).hits_positive(),
    {
        let mut out: Vec<GrepHit> = Vec::new();
        let n = self.hits.len();
        let mut i: usize = 0;
        proof {
            assert(head_hits(self.hits@.take(0), n_lines) =~= Seq::<GrepHit>::empty());
        }
        while i < n
            invariant
                0 <= i <= n,
                self.files == old(self).files,
                self.hits == old(self).hits,
                n == self.hits@.len(),
                out@ == head_hits(old(self).hits@.take(i as int), n_lines),
            decreases n - i,
        {
            let h = self.hits[i];
            proof {
                assert(self.hits@.take(i as int + 1).drop_last() =~= self.hits@.take(i as int));
                assert(self.hits@.take(i as int + 1).last() == h);
            }
            if out.len() == 0 || out[out.len() - 1].file_id != h.file_id {
                out.push(GrepHit { file_id: h.file_id, from: 0, n_lines, level: 0 });
            }
            i = i + 1;
        }
        proof {
            assert(self.hits@.take(n as int) =~= self.hits@);
            lemma_head_hits(self.hits@, n_lines, self.files@.len() as int);
        }
        self.hits = out;
        Ok(())
    }

    /// Pad every hit: `up` lines before it, saturating at the top of the
    /// file, and `down` lines after it.
    pub fn extend_by_lines(&mut self, up: usize, down: usize) -> (r: Result<(), GeError>)
        requires
            old(self).wf(),
            forall|i: int|
                0 <= i < old(self).hits@.len() ==> (#[trigger] old(self).hits@[i]).from + old(
                    self,
                ).hits@[i].n_lines + down <= usize::MAX,
        ensures
            r is Ok,
            final (self).files == old(self).files,
            final (self).hits@.len() == old(self).hits@.len(),
            forall|i: int|
                0 <= i < old(self).hits@.len() ==> final (self).hits@[i] == padded_hit(
                    #[trigger] old(self).hits@[i],
                    up,
                    down,
                ),
            final (self).wf(),
            down >= 1 ==> final (self).hits_positive(),
            old(self).hits_positive() ==> final (self).hits_positive(),
    {
        let mut out: Vec<GrepHit> = Vec::new();
        let n = self.hits.len();
        let mut i: usize = 0;
        while i < n
            invariant
                0 <= i <= n,
                self.files == old(self).files,
                self.hits == old(self).hits,
                n == self.hits@.len(),
                forall|k: int|
                    0 <= k < old(self).hits@.len() ==> (#[trigger] old(self).hits@[k]).from
                        + old(self).hits@[k].n_lines + down <= usize::MAX,
                out@.len() == i as int,
                forall|k: int|
                    0 <= k < i ==> out@[k] == padded_hit(#[trigger] old(self).hits@[k], up, down),
            decreases n - i,
        {
            let h = self.hits[i];
            let end = h.from + h.n_lines + down;
            let start = if h.from >= up {
                h.from - up
            } else {
                0
            };
            out.push(GrepHit { file_id: h.file_id, from: start, n_lines: end - start, level: h.level });
            i = i + 1;
        }
        self.hits = out;
        proof {
            assert forall|i: int, j: int|
                0 <= i < j < self.hits@.len() implies hit_le(self.hits@[i], self.hits@[j]) by {
                assert(self.hits@[i] == padded_hit(old(self).hits@[i], up, down));
                assert(self.hits@[j] == padded_hit(old(self).hits@[j], up, down));
                assert(hit_le(old(self).hits@[i], old(self).hits@[j]));
            }
            assert forall|i: int|
                0 <= i < self.hits@.len() implies self.hit_in_range(#[trigger] self.hits@[i])
                && self.hits@[i].n_lines >= old(self).hits@[i].n_lines + down by {
                assert(self.hits@[i] == padded_hit(old(self).hits@[i], up, down));
                assert(old(self).hit_in_range(old(self).hits@[i]));
            }
        }
        Ok(())
    }

    /// Extend each hit down to the end of the earliest hit of `to` in the
    /// same file that starts at or below it with the same indent level;
    /// leave hits without such an anchor unchanged.
    pub fn extend_to_another(&mut self, to: &GrepResult) -> (r: Result<(), GeError>)
        requires
            old(self).wf(),
            to.wf(),
        ensures
            r is Ok,
            final (self).files == old(self).files,
            final (self).hits@.len() == old(self).hits@.len(),
            forall|i: int|
                0 <= i < old(self).hits@.len() ==> final (self).hits@[i] == extended_hit(
                    old(self).files@[(#[trigger] old(self).hits@[i]).file_id as int]@,
                    old(self).hits@[i],
                    to.files@,
                    to.hits@,
                ),
            final (self).wf(),
            old(self).hits_positive() && to.hits_positive() ==> final (self).hits_positive(),
    {
        let mut out: Vec<GrepHit> = Vec::new();
        let n = self.hits.len();
        let mut i: usize = 0;
        while i < n
            invariant
                0 <= i <= n,
                self.files == old(self).files,
                self.hits == old(self).hits,
                old(self).wf(),
                to.wf(),
                n == self.hits@.len(),
                out@.len() == i as int,
                forall|k: int|
                    0 <= k < i ==> out@[k] == extended_hit(
                        old(self).files@[(#[trigger] old(self).hits@[k]).file_id as int]@,
                        old(self).hits@[k],
                        to.files@,
                        to.hits@,
                    ),
                forall|k: int|
                    0 <= k < i ==> (#[trigger] out@[k]).file_id == old(self).hits@[k].file_id
                        && out@[k].from == old(self).hits@[k].from && old(self).hit_in_range(
                        out@[k],
                    ) && (old(self).hits_positive() && to.hits_positive() ==> out@[k].n_lines
                        >= 1),
            decreases n - i,
        {
            let h = self.hits[i];
            proof {
                assert(old(self).hit_in_range(old(self).hits@[i as int]));
            }
            let name = self.files[h.file_id].as_str();
            proof {
                assert(name@ == old(self).files@[h.file_id as int]@);
                assert(first_anchor(name@, h, to.files@, to.hits@) == first_anchor(
                    old(self).files@[h.file_id as int]@,
                    h,
                    to.files@,
                    to.hits@,
                ));
            }
            let ext = match find_anchor(name, h, to) {
                Some(t) => GrepHit {
                    file_id: h.file_id,
                    from: h.from,
                    n_lines: t.from + t.n_lines - h.from,
                    level: h.level,
                },
                None => h,
            };
            proof {
                assert(ext == extended_hit(
                    old(self).files@[h.file_id as int]@,
                    h,
                    to.files@,
                    to.hits@,
                ));
            }
            out.push(ext);
            i = i + 1;
        }
        self.hits = out;
        proof {
            assert forall|p: int, q: int|
                0 <= p < q < self.hits@.len() implies hit_le(self.hits@[p], self.hits@[q]) by {
                assert(hit_le(old(self).hits@[p], old(self).hits@[q]));
            }
        }
        Ok(())
    }
}

// ---------------------------------------------------------------------------
// Overlap merging
// ---------------------------------------------------------------------------
/// Left-to-right merge: a hit is folded into its predecessor when they share
/// a file and the predecessor reaches the hit's start; the merged span ends
/// at the farther of the two ends.
pub open spec fn merged_hits(hits: Seq<GrepHit>) -> Seq<GrepHit>
    decreases hits.len(),
{
    if hits.len() == 0 {
        Seq::empty()
    } else {
        let prev = merged_hits(hits.drop_last());
        let h = hits.last();
        if prev.len() > 0 && prev.last().file_id == h.file_id && prev.last().from
            + prev.last().n_lines >= h.from {
            let p = prev.last();
            let end = if p.from + p.n_lines >= h.from + h.n_lines {
                p.from + p.n_lines
            } else {
                h.from + h.n_lines
            };
            prev.update(prev.len() - 1, GrepHit { n_lines: (end - p.from) as usize, ..p })
        } else {
            prev.push(h)
        }
    }
}

/// After merging a sorted hit sequence, no hit reaches a later hit of the
/// same file: for any two, the first ends strictly before the second starts.
pub proof fn lemma_merged_hits_disjoint(hits: Seq<GrepHit>, bound: int)
    requires
        forall|i: int, j: int| 0 <= i < j < hits.len() ==> hit_le(hits[i], hits[j]),
        forall|i: int|
            0 <= i < hits.len() ==> (#[trigger] hits[i]).file_id < bound && hits[i].from
                + hits[i].n_lines <= usize::MAX && hits[i].from < usize::MAX,
    ensures
        forall|i: int, j: int|
            0 <= i < j < merged_hits(hits).len() && merged_hits(hits)[i].file_id == merged_hits(
                hits,
            )[j].file_id ==> merged_hits(hits)[i].from + merged_hits(hits)[i].n_lines
                < merged_hits(hits)[j].from,
        forall|i: int, j: int|
            0 <= i < j < merged_hits(hits).len() ==> hit_le(
                merged_hits(hits)[i],
                merged_hits(hits)[j],
            ),
        forall|i: int|
            0 <= i < merged_hits(hits).len() ==> (#[trigger] merged_hits(hits)[i]).file_id < bound
                && merged_hits(hits)[i].from + merged_hits(hits)[i].n_lines <= usize::MAX
                && merged_hits(hits)[i].from < usize::MAX,
        merged_hits(hits).len() > 0 <==> hits.len() > 0,
        merged_hits(hits).len() > 0 ==> merged_hits(hits).last().file_id == hits.last().file_id
            && merged_hits(hits).last().from <= hits.last().from && merged_hits(hits).last().from
            + merged_hits(hits).last().n_lines >= hits.last().from + hits.last().n_lines,
        (forall|i: int| 0 <= i < hits.len() ==> (#[trigger] hits[i]).n_lines >= 1) ==> forall|
            i: int,
        | 0 <= i < merged_hits(hits).len() ==> (#[trigger] merged_hits(hits)[i]).n_lines >= 1,
    decreases hits.len(),
{
    if hits.len() > 0 {
        let s0 = hits.drop_last();
        assert(forall|i: int| 0 <= i < s0.len() ==> s0[i] == hits[i]);
        lemma_merged_hits_disjoint(s0, bound);
        let prev = merged_hits(s0);
        let h = hits.last();
        let out = merged_hits(hits);
        if prev.len() > 0 && prev.last().file_id == h.file_id && prev.last().from
            + prev.last().n_lines >= h.from {
            let p = prev.last();
            let last = prev.len() - 1;
            assert(s0.len() > 0);
            assert(hit_le(s0[s0.len() - 1], h));
            assert(out[last].from == p.from);
            assert forall|i: int, j: int|
                0 <= i < j < out.len() && out[i].file_id == out[j].file_id implies out[i].from
                + out[i].n_lines < out[j].from by {
                if j < last {
                    assert(out[i] == prev[i] && out[j] == prev[j]);
                } else {
                    assert(out[i] == prev[i]);
                    assert(prev[i].file_id == p.file_id);
                    assert(prev[i].from + prev[i].n_lines < p.from);
                }
            }
            assert forall|i: int, j: int| 0 <= i < j < out.len() implies hit_le(out[i], out[j]) by {
                assert(hit_le(prev[i], prev[j]));
                if j == last {
                    assert(out[j].file_id == prev[j].file_id && out[j].from == prev[j].from);
                }
                if i == last {
                    assert(out[i].file_id == prev[i].file_id && out[i].from == prev[i].from);
                }
            }
        } else {
            if prev.len() > 0 {
                let p = prev.last();
                assert(p.file_id == s0.last().file_id);
                assert(hit_le(s0[s0.len() - 1], h));
                assert(hit_le(p, h));
                assert forall|i: int, j: int|
                    0 <= i < j < out.len() implies hit_le(out[i], out[j]) by {
                    if j < out.len() - 1 {
                        assert(out[i] == prev[i] && out[j] == prev[j]);
                        assert(hit_le(prev[i], prev[j]));
                    } else {
                        assert(out[j] == h);
                        assert(out[i] == prev[i]);
                        assert(hit_le(prev[i], p));
                    }
                }
                assert forall|i: int, j: int|
                    0 <= i < j < out.len() && out[i].file_id == out[j].file_id implies out[i].from
                    + out[i].n_lines < out[j].from by {
                    if j < out.len() - 1 {
                        assert(out[i] == prev[i] && out[j] == prev[j]);
                    } else {
                        assert(out[j] == h);
                        assert(out[i] == prev[i]);
                        // file ids in prev never sink below a later equal id
                        assert(hit_le(prev[i], p));
                        assert(prev[i].file_id == h.file_id);
                        assert(p.file_id >= prev[i].file_id);
                        assert(p.file_id <= h.file_id);
                        assert(p.file_id == h.file_id);
                        if i < out.len() - 2 {
                            assert(prev[i].from + prev[i].n_lines < p.from);
                            assert(p.from <= h.from);
                        } else {
                            assert(prev[i] == p);
                            assert(p.from + p.n_lines < h.from);
                        }
                    }
                }
            }
        }
    }
}

impl GrepResult {
    /// Merge every hit into its predecessor while they share a file and the
    /// predecessor reaches the hit's start.
    pub fn filter_overlaps(&mut self) -> (r: Result<(), GeError>)
        requires
            old(self).wf(),
        ensures
            r is Ok,
            final (self).files == old(self).files,
            final (self).hits@ == merged_hits(old(self).hits@),
            final (self).wf(),
            old(self).hits_positive() ==> final (self).hits_positive(),
    {
        let mut out: Vec<GrepHit> = Vec::new();
        let n = self.hits.len();
        let mut i: usize = 0;
        proof {
            assert(merged_hits(self.hits@.take(0)) =~= Seq::<GrepHit>::empty());
        }
        while i < n
            invariant
                0 <= i <= n,
                self.files == old(self).files,
                self.hits == old(self).hits,
                old(self).wf(),
                n == self.hits@.len(),
                out@ == merged_hits(old(self).hits@.take(i as int)),
                forall|k: int|
                    0 <= k < out@.len() ==> (#[trigger] out@[k]).from + out@[k].n_lines
                        <= usize::MAX,
            decreases n - i,
        {
            let h = self.hits[i];
            proof {
                assert(old(self).hit_in_range(old(self).hits@[i as int]));
                assert(self.hits@.take(i as int + 1).drop_last() =~= self.hits@.take(i as int));
                assert(self.hits@.take(i as int + 1).last() == h);
            }
            let len = out.len();
            if len > 0 && out[len - 1].file_id == h.file_id && out[len - 1].from + out[len
                - 1].n_lines >= h.from {
                let p = out[len - 1];
                let pe = p.from + p.n_lines;
                let he = h.from + h.n_lines;
                let end = if pe >= he {
                    pe
                } else {
                    he
                };
                let merged = GrepHit {
                    file_id: p.file_id,
                    from: p.from,
                    n_lines: end - p.from,
                    level: p.level,
                };
                out.pop();
                out.push(merged);
                proof {
                    assert(out@ =~= merged_hits(old(self).hits@.take(i as int)).update(
                        len - 1,
                        merged,
                    ));
                }
            } else {
                out.push(h);
            }
            i = i + 1;
        }
        proof {
            assert(self.hits@.take(n as int) =~= self.hits@);
            lemma_merged_hits_disjoint(old(self).hits@, old(self).files@.len() as int);
        }
        self.hits = out;
        Ok(())
    }
}

// ---------------------------------------------------------------------------
// Parsing the whole search output
// ---------------------------------------------------------------------------
/// One parsed search hit before the tables are built.
pub ghost struct RawLine {
    pub name: Seq<char>,
    pub from: int,
    pub level: int,
}

/// The lines that carry hits: the `--` break lines dropped.
pub open spec fn hit_lines(lines: Seq<Seq<char>>) -> Seq<Seq<char>>
    decreases lines.len(),
{
    if lines.len() == 0 {
        Seq::empty()
    } else {
        let prev = hit_lines(lines.drop_last());
        if lines.last() == "--"@ {
            prev
        } else {
            prev.push(lines.last())
        }
    }
}

/// The hit-carrying lines of the raw search output: trimmed, split into
/// lines, break lines dropped.
pub open spec fn grep_raw_lines(raw: Seq<char>) -> Seq<Seq<char>> {
    hit_lines(crate::text::split_lines_s(crate::text::trim_s(raw)))
}

/// Every line parses.
pub open spec fn all_lines_ok(ls: Seq<Seq<char>>) -> bool {
    forall|i: int| 0 <= i < ls.len() ==> parse_line_ok(#[trigger] ls[i])
}

/// What each line parses to, in order.
pub open spec fn parsed_lines(ls: Seq<Seq<char>>) -> Seq<RawLine>
    decreases ls.len(),
{
    if ls.len() == 0 {
        Seq::empty()
    } else {
        parsed_lines(ls.drop_last()).push(
            RawLine {
                name: parsed_name(ls.last()),
                from: parsed_from(ls.last()),
                level: parsed_level(ls.last()),
            },
        )
    }
}

/// Order of parsed hits: by file name, then start line, then indent.
pub open spec fn raw_le(a: RawLine, b: RawLine) -> bool {
    lex_lt(a.name, b.name) || (a.name == b.name && (a.from < b.from || (a.from == b.from && a.level
        <= b.level)))
}

/// `x` placed into the sorted sequence `s`, after its equals.
pub open spec fn insert_sorted(s: Seq<RawLine>, x: RawLine) -> Seq<RawLine>
    decreases s.len(),
{
    if s.len() == 0 {
        seq![x]
    } else if raw_le(s.last(), x) {
        s.push(x)
    } else {
        insert_sorted(s.drop_last(), x).push(s.last())
    }
}

/// Stable insertion sort of the parsed hits.
pub open spec fn sort_raw(s: Seq<RawLine>) -> Seq<RawLine>
    decreases s.len(),
{
    if s.len() == 0 {
        Seq::empty()
    } else {
        insert_sorted(sort_raw(s.drop_last()), s.last())
    }
}

/// The ascending distinct file table of sorted hits.
pub open spec fn build_files(ts: Seq<RawLine>) -> Seq<Seq<char>>
    decreases ts.len(),
{
    if ts.len() == 0 {
        Seq::empty()
    } else {
        let prev = build_files(ts.drop_last());
        if prev.len() > 0 && prev.last() == ts.last().name {
            prev
        } else {
            prev.push(ts.last().name)
        }
    }
}

/// The hits of sorted parsed lines: one line each, adjacent lines of one
/// file merged into a longer hit when `merge` asks for it.
pub open spec fn build_hits(ts: Seq<RawLine>, merge: bool) -> Seq<GrepHit>
    decreases ts.len(),
{
    if ts.len() == 0 {
        Seq::empty()
    } else {
        let prev = build_hits(ts.drop_last(), merge);
        let fid = (build_files(ts).len() - 1) as usize;
        let t = ts.last();
        if merge && prev.len() > 0 && prev.last().file_id == fid && prev.last().from
            + prev.last().n_lines == t.from {
            prev.update(
                prev.len() - 1,
                GrepHit { n_lines: (prev.last().n_lines + 1) as usize, ..prev.last() },
            )
        } else {
            prev.push(
                GrepHit { file_id: fid, from: t.from as usize, n_lines: 1, level: t.level as usize },
            )
        }
    }
}

proof fn lemma_raw_le_total(a: RawLine, b: RawLine)
    ensures
        raw_le(a, b) || raw_le(b, a),
{
    lemma_lex_connex(a.name, b.name);
}

proof fn lemma_raw_le_trans(a: RawLine, b: RawLine, c: RawLine)
    requires
        raw_le(a, b),
        raw_le(b, c),
    ensures
        raw_le(a, c),
{
    if lex_lt(a.name, b.name) && lex_lt(b.name, c.name) {
        lemma_lex_lt_trans(a.name, b.name, c.name);
    }
}

/// A prefix of the input filters to a prefix of the filtered lines.
proof fn lemma_hit_lines_prefix(ls: Seq<Seq<char>>, i: int)
    requires
        0 <= i <= ls.len(),
    ensures
        hit_lines(ls.take(i)).len() <= hit_lines(ls).len(),
        forall|k: int|
            0 <= k < hit_lines(ls.take(i)).len() ==> hit_lines(ls)[k] == hit_lines(ls.take(i))[k],
    decreases ls.len() - i,
{
    if i == ls.len() {
        assert(ls.take(i) =~= ls);
    } else {
        assert(ls.take(i + 1).drop_last() =~= ls.take(i));
        assert(ls.take(i + 1).last() == ls[i]);
        lemma_hit_lines_prefix(ls, i + 1);
    }
}

proof fn lemma_insert_sorted_at(s: Seq<RawLine>, x: RawLine, idx: int)
    requires
        0 <= idx <= s.len(),
        forall|k: int| idx <= k < s.len() ==> !raw_le(#[trigger] s[k], x),
        idx > 0 ==> raw_le(s[idx - 1], x),
    ensures
        insert_sorted(s, x) == s.take(idx).push(x) + s.skip(idx),
    decreases s.len(),
{
    if idx == s.len() {
        if s.len() == 0 {
            assert(insert_sorted(s, x) =~= s.take(idx).push(x) + s.skip(idx));
        } else {
            assert(raw_le(s.last(), x));
            assert(s.take(idx) =~= s);
            assert(insert_sorted(s, x) =~= s.take(idx).push(x) + s.skip(idx));
        }
    } else {
        assert(!raw_le(s[s.len() - 1], x));
        let s0 = s.drop_last();
        assert(forall|k: int| 0 <= k < s0.len() ==> s0[k] == s[k]);
        lemma_insert_sorted_at(s0, x, idx);
        assert(s0.take(idx) =~= s.take(idx));
        assert(insert_sorted(s, x) == insert_sorted(s0, x).push(s.last()));
        assert(insert_sorted(s, x) =~= s.take(idx).push(x) + s.skip(idx));
    }
}

/// Inserting into a sorted sequence keeps it sorted.
proof fn lemma_insert_sorted_keeps(s: Seq<RawLine>, x: RawLine, idx: int)
    requires
        0 <= idx <= s.len(),
        forall|k: int| idx <= k < s.len() ==> !raw_le(#[trigger] s[k], x),
        idx > 0 ==> raw_le(s[idx - 1], x),
        forall|i: int, j: int| 0 <= i < j < s.len() ==> raw_le(#[trigger] s[i], #[trigger] s[j]),
    ensures
        forall|i: int, j: int|
            0 <= i < j < insert_sorted(s, x).len() ==> raw_le(
                #[trigger] insert_sorted(s, x)[i],
                #[trigger] insert_sorted(s, x)[j],
            ),
{
    lemma_insert_sorted_at(s, x, idx);
    let out = insert_sorted(s, x);
    assert forall|i: int, j: int|
        0 <= i < j < out.len() implies raw_le(#[trigger] out[i], #[trigger] out[j]) by {
        if i < idx {
            assert(out[i] == s[i]);
        } else if i == idx {
            assert(out[i] == x);
        } else {
            assert(out[i] == s[i - 1]);
        }
        if j < idx {
            assert(out[j] == s[j]);
        } else if j == idx {
            assert(out[j] == x);
        } else {
            assert(out[j] == s[j - 1]);
        }
        if j == idx {
            // i < idx: s[i] comes before x
            assert(raw_le(s[idx - 1], x));
            if i < idx - 1 {
                lemma_raw_le_trans(s[i], s[idx - 1], x);
            }
        } else if i == idx && j > idx {
            // x comes before the shifted tail
            assert(!raw_le(s[j - 1], x));
            lemma_raw_le_total(s[j - 1], x);
        }
    }
}

/// What building the tables from sorted hits guarantees.
proof fn lemma_build(ts: Seq<RawLine>, merge: bool)
    requires
        ts.len() <= usize::MAX,
        forall|i: int, j: int| 0 <= i < j < ts.len() ==> raw_le(#[trigger] ts[i], #[trigger] ts[j]),
        forall|i: int|
            0 <= i < ts.len() ==> 0 <= (#[trigger] ts[i]).from < usize::MAX && 0 <= ts[i].level
                <= usize::MAX,
    ensures
        build_files(ts).len() <= ts.len(),
        build_hits(ts, merge).len() <= ts.len(),
        forall|i: int, j: int|
            0 <= i < j < build_files(ts).len() ==> lex_lt(
                #[trigger] build_files(ts)[i],
                #[trigger] build_files(ts)[j],
            ),
        build_files(ts).len() > 0 <==> ts.len() > 0,
        ts.len() > 0 ==> build_files(ts).last() == ts.last().name,
        forall|i: int|
            0 <= i < build_hits(ts, merge).len() ==> (#[trigger] build_hits(ts, merge)[i]).file_id
                < build_files(ts).len() && build_hits(ts, merge)[i].n_lines >= 1 && build_hits(
                ts,
                merge,
            )[i].from + build_hits(ts, merge)[i].n_lines <= usize::MAX && build_hits(
                ts,
                merge,
            )[i].from < usize::MAX,
        forall|i: int, j: int|
            0 <= i < j < build_hits(ts, merge).len() ==> hit_le(
                build_hits(ts, merge)[i],
                build_hits(ts, merge)[j],
            ),
        build_hits(ts, merge).len() > 0 <==> ts.len() > 0,
        ts.len() > 0 ==> build_hits(ts, merge).last().file_id == build_files(ts).len() - 1
            && build_hits(ts, merge).last().from <= ts.last().from && build_hits(
            ts,
            merge,
        ).last().from + build_hits(ts, merge).last().n_lines == ts.last().from + 1,
    decreases ts.len(),
{
    if ts.len() > 0 {
        let s0 = ts.drop_last();
        assert(forall|i: int| 0 <= i < s0.len() ==> s0[i] == ts[i]);
        lemma_build(s0, merge);
        let bf0 = build_files(s0);
        let bf = build_files(ts);
        let prev = build_hits(s0, merge);
        let bh = build_hits(ts, merge);
        let t = ts.last();
        if !(bf0.len() > 0 && bf0.last() == t.name) {
            // a new file is appended; every earlier name is smaller
            assert(bf =~= bf0.push(t.name));
            if s0.len() > 0 {
                assert(raw_le(s0[s0.len() - 1], t));
                assert(bf0.last() == s0.last().name);
                assert(lex_lt(bf0.last(), t.name)) by {
                    if !lex_lt(s0.last().name, t.name) {
                        assert(s0.last().name == t.name);
                    }
                }
                assert forall|i: int| 0 <= i < bf0.len() - 1 implies lex_lt(
                    #[trigger] bf0[i],
                    t.name,
                ) by {
                    assert(lex_lt(bf0[i], bf0[bf0.len() - 1]));
                    lemma_lex_lt_trans(bf0[i], bf0[bf0.len() - 1], t.name);
                }
            }
        }
        let fid = (bf.len() - 1) as usize;
        if merge && prev.len() > 0 && prev.last().file_id == fid && prev.last().from
            + prev.last().n_lines == t.from {
            assert(bh =~= prev.update(
                prev.len() - 1,
                GrepHit { n_lines: (prev.last().n_lines + 1) as usize, ..prev.last() },
            ));
            assert(s0.len() > 0);
            assert(bf0.len() > 0 && prev.last().file_id < bf0.len());
            assert(bf == bf0);
            assert forall|i: int, j: int| 0 <= i < j < bh.len() implies hit_le(bh[i], bh[j]) by {
                assert(hit_le(prev[i], prev[j]));
            }
        } else {
            assert(bh =~= prev.push(
                GrepHit { file_id: fid, from: t.from as usize, n_lines: 1, level: t.level as usize },
            ));
            if prev.len() > 0 {
                assert(s0.len() > 0);
                assert(raw_le(s0[s0.len() - 1], t));
                assert(prev.last().file_id == bf0.len() - 1);
                if bf0.len() > 0 && bf0.last() == t.name {
                    assert(bf == bf0);
                    assert(s0.last().name == t.name || lex_lt(s0.last().name, t.name));
                    if lex_lt(s0.last().name, t.name) {
                        // the last file name equals t.name yet the last hit is older
                        assert(bf0.last() == s0.last().name);
                        lemma_lex_lt_asym(s0.last().name, t.name);
                        assert(false);
                    }
                    assert(s0.last().from <= t.from);
                    assert(prev.last().from <= t.from);
                } else {
                    assert(bf =~= bf0.push(t.name));
                    assert(fid == bf0.len());
                }
                assert forall|i: int, j: int| 0 <= i < j < bh.len() implies hit_le(
                    bh[i],
                    bh[j],
                ) by {
                    if j < bh.len() - 1 {
                        assert(bh[i] == prev[i] && bh[j] == prev[j]);
                        assert(hit_le(prev[i], prev[j]));
                    } else {
                        assert(bh[i] == prev[i]);
                        assert(hit_le(prev[i], prev[prev.len() - 1]));
                    }
                }
            }
        }
    }
}

/// One parsed search hit with its owned file name.
struct RawHit {
    name: String,
    from: usize,
    level: usize,
}

/// The spec view of a parsed hit.
spec fn raw_view(h: RawHit) -> RawLine {
    RawLine { name: h.name@, from: h.from as int, level: h.level as int }
}

/// The spec views of a run of parsed hits.
spec fn raw_views(v: Seq<RawHit>) -> Seq<RawLine> {
    v.map_values(|h: RawHit| raw_view(h))
}

/// Whether `a` sorts at or before `b`.
fn raw_le_test(a: &RawHit, b: &RawHit) -> (r: bool)
    ensures
        r == raw_le(raw_view(*a), raw_view(*b)),
{
    if str_lt(a.name.as_str(), b.name.as_str()) {
        true
    } else if str_eq(a.name.as_str(), b.name.as_str()) {
        a.from < b.from || (a.from == b.from && a.level <= b.level)
    } else {
        proof {
            lemma_lex_connex(a.name@, b.name@);
        }
        false
    }
}

impl GrepResult {
    /// Parse the whole NUL-delimited search output: split into lines, drop
    /// the `--` break lines, parse each hit, sort by file name and line,
    /// deduplicate the file table, and, when `merge` asks for it, coalesce
    /// adjacent hits of one file.
    pub fn from_raw(raw: &str, merge: bool) -> (r: Result<GrepResult, GeError>)
        ensures
            match r {
                Ok(res) => all_lines_ok(grep_raw_lines(raw@)) && views_of(res.files@)
                    == build_files(sort_raw(parsed_lines(grep_raw_lines(raw@)))) && res.hits@
                    == build_hits(sort_raw(parsed_lines(grep_raw_lines(raw@))), merge) && res.wf()
                    && res.hits_positive(),
                Err(e) => e == GeError::MalformedGrepLine && !all_lines_ok(grep_raw_lines(raw@)),
            },
    {
        let trimmed = crate::text::trim_str(raw);
        let lines = crate::text::split_lines(trimmed);
        let ghost gl = lines@.map_values(|l: String| l@);
        let n = lines.len();
        let mut parsed: Vec<RawHit> = Vec::new();
        let mut i: usize = 0;
        proof {
            assert(gl == crate::text::split_lines_s(crate::text::trim_s(raw@)));
            assert(hit_lines(gl.take(0)) =~= Seq::<Seq<char>>::empty());
            assert(raw_views(parsed@) =~= parsed_lines(hit_lines(gl.take(0))));
        }
        while i < n
            invariant
                0 <= i <= n,
                n == lines@.len(),
                gl == lines@.map_values(|l: String| l@),
                hit_lines(gl) == grep_raw_lines(raw@),
                raw_views(parsed@) == parsed_lines(hit_lines(gl.take(i as int))),
                parsed@.len() == hit_lines(gl.take(i as int)).len(),
                all_lines_ok(hit_lines(gl.take(i as int))),
                forall|k: int|
                    0 <= k < parsed@.len() ==> (#[trigger] parsed@[k]).from < usize::MAX,
            decreases n - i,
        {
            let l = lines[i].as_str();
            proof {
                assert(gl.take(i as int + 1).drop_last() =~= gl.take(i as int));
                assert(gl.take(i as int + 1).last() == l@);
                lemma_hit_lines_prefix(gl, i as int + 1);
            }
            let ghost parsed0 = parsed@;
            if !str_eq(l, "--") {
                match Self::parse_line(l) {
                    Ok((name, from, level)) => {
                        parsed.push(RawHit { name, from, level });
                        proof {
                            let hl0 = hit_lines(gl.take(i as int));
                            let hl1 = hit_lines(gl.take(i as int + 1));
                            assert(hl1 =~= hl0.push(l@));
                            assert(hl1.drop_last() =~= hl0);
                            assert(hl1.last() == l@);
                            assert(parsed_lines(hl1) =~= parsed_lines(hl0).push(
                                RawLine {
                                    name: parsed_name(l@),
                                    from: parsed_from(l@),
                                    level: parsed_level(l@),
                                },
                            ));
                            assert(raw_view(parsed@.last()) == RawLine {
                                name: parsed_name(l@),
                                from: parsed_from(l@),
                                level: parsed_level(l@),
                            });
                            assert(raw_views(parsed@) =~= raw_views(parsed0).push(
                                raw_view(parsed@.last()),
                            ));
                            assert(raw_views(parsed@) =~= parsed_lines(hl1));
                        }
                    },
                    Err(e) => {
                        proof {
                            let hl = hit_lines(gl.take(i as int + 1));
                            assert(hl.last() == l@);
                            assert(hit_lines(gl)[hl.len() - 1] == l@);
                            assert(!parse_line_ok(hit_lines(gl)[hl.len() - 1]));
                        }
                        return Err(e);
                    },
                }
            } else {
                proof {
                    assert(hit_lines(gl.take(i as int + 1)) =~= hit_lines(gl.take(i as int)));
                }
            }
            i = i + 1;
        }
        proof {
            assert(gl.take(n as int) =~= gl);
        }
        let ghost pl = parsed_lines(hit_lines(gl));
        let ghost total = parsed@.len();
        // insertion sort, stable on equal keys
        let mut sorted: Vec<RawHit> = Vec::new();
        proof {
            assert(pl.take(0) =~= Seq::<RawLine>::empty());
            assert(raw_views(sorted@) =~= sort_raw(pl.take(0)));
            assert(pl.skip(0) =~= pl);
        }
        while parsed.len() > 0
            invariant
                total == pl.len(),
                sorted@.len() + parsed@.len() == total,
                raw_views(parsed@) == pl.skip(sorted@.len() as int),
                raw_views(sorted@) == sort_raw(pl.take(sorted@.len() as int)),
                forall|k: int|
                    0 <= k < parsed@.len() ==> (#[trigger] parsed@[k]).from < usize::MAX,
                forall|k: int|
                    0 <= k < sorted@.len() ==> (#[trigger] sorted@[k]).from < usize::MAX,
                forall|a: int, b: int|
                    0 <= a < b < sorted@.len() ==> raw_le(
                        raw_view(#[trigger] sorted@[a]),
                        raw_view(#[trigger] sorted@[b]),
                    ),
            decreases parsed@.len(),
        {
            let ghost j = sorted@.len() as int;
            let ghost rem0 = parsed@;
            let x = parsed.remove(0);
            proof {
                assert(raw_views(rem0)[0] == raw_view(x));
                assert(pl.skip(j)[0] == pl[j]);
                assert(raw_view(x) == pl[j]);
                assert(parsed@ =~= rem0.skip(1));
                assert forall|kk: int|
                    0 <= kk < parsed@.len() implies raw_views(parsed@)[kk] == pl.skip(j + 1)[kk] by {
                    assert(raw_views(parsed@)[kk] == raw_view(parsed@[kk]));
                    assert(raw_views(rem0)[kk + 1] == raw_view(rem0[kk + 1]));
                    assert(pl.skip(j)[kk + 1] == pl[j + 1 + kk]);
                }
                assert(raw_views(parsed@) =~= pl.skip(j + 1));
                assert(x.from < usize::MAX);
            }
            let mut idx: usize = sorted.len();
            while idx > 0 && !raw_le_test(&sorted[idx - 1], &x)
                invariant
                    0 <= idx <= sorted@.len(),
                    forall|k: int|
                        idx <= k < sorted@.len() ==> !raw_le(
                            raw_view(#[trigger] sorted@[k]),
                            raw_view(x),
                        ),
                decreases idx,
            {
                idx = idx - 1;
            }
            let ghost sv = raw_views(sorted@);
            proof {
                assert(forall|k: int| 0 <= k < sv.len() ==> sv[k] == raw_view(sorted@[k]));
                assert(forall|k: int| 0 <= k < sv.len() ==> (#[trigger] sv[k]).from < usize::MAX);
                lemma_insert_sorted_at(sv, raw_view(x), idx as int);
                lemma_insert_sorted_keeps(sv, raw_view(x), idx as int);
            }
            sorted.insert(idx, x);
            proof {
                assert(pl.take(j + 1).drop_last() =~= pl.take(j));
                assert(pl.take(j + 1).last() == pl[j]);
                assert(raw_views(sorted@) =~= sv.take(idx as int).push(pl[j]) + sv.skip(
                    idx as int,
                ));
                assert(raw_views(sorted@) =~= sort_raw(pl.take(j + 1)));
                assert forall|a: int, b: int|
                    0 <= a < b < sorted@.len() implies raw_le(
                    raw_view(#[trigger] sorted@[a]),
                    raw_view(#[trigger] sorted@[b]),
                ) by {
                    assert(raw_views(sorted@)[a] == raw_view(sorted@[a]));
                    assert(raw_views(sorted@)[b] == raw_view(sorted@[b]));
                }
                assert forall|kk: int|
                    0 <= kk < sorted@.len() implies (#[trigger] sorted@[kk]).from < usize::MAX by {
                    assert(raw_views(sorted@)[kk] == raw_view(sorted@[kk]));
                    assert(raw_views(sorted@) == sv.take(idx as int).push(raw_view(x)) + sv.skip(
                        idx as int,
                    ));
                    if kk < idx {
                        assert(raw_views(sorted@)[kk] == sv[kk]);
                    } else if kk > idx {
                        assert(raw_views(sorted@)[kk] == sv[kk - 1]);
                    }
                }
            }
        }
        proof {
            assert(pl.take(total as int) =~= pl);
        }
        let ghost ts = sort_raw(pl);
        let m = sorted.len();
        proof {
            assert(raw_views(sorted@) == ts);
            assert(ts.len() == m as int);
            assert(forall|k: int| 0 <= k < ts.len() ==> ts[k] == raw_view(sorted@[k]));
            assert(forall|a: int, b: int|
                0 <= a < b < ts.len() ==> raw_le(#[trigger] ts[a], #[trigger] ts[b]));
            assert(forall|k: int|
                0 <= k < ts.len() ==> 0 <= (#[trigger] ts[k]).from < usize::MAX && 0 <= ts[k].level
                    <= usize::MAX);
            lemma_build(ts, merge);
        }
        // build the file table and the hits
        let mut files: Vec<String> = Vec::new();
        let mut hits: Vec<GrepHit> = Vec::new();
        let mut k: usize = 0;
        proof {
            assert(views_of(files@) =~= build_files(ts.take(0)));
            assert(hits@ =~= build_hits(ts.take(0), merge));
        }
        while k < m
            invariant
                0 <= k <= m,
                m == sorted@.len(),
                ts == raw_views(sorted@),
                ts.len() == m as int,
                forall|a: int, b: int|
                    0 <= a < b < ts.len() ==> raw_le(#[trigger] ts[a], #[trigger] ts[b]),
                forall|kk: int|
                    0 <= kk < ts.len() ==> 0 <= (#[trigger] ts[kk]).from < usize::MAX && 0
                        <= ts[kk].level <= usize::MAX,
                views_of(files@) == build_files(ts.take(k as int)),
                hits@ == build_hits(ts.take(k as int), merge),
                files@.len() == build_files(ts.take(k as int)).len(),
                hits@.len() == build_hits(ts.take(k as int), merge).len(),
                forall|kk: int|
                    0 <= kk < hits@.len() ==> (#[trigger] hits@[kk]).from + hits@[kk].n_lines
                        <= usize::MAX,
            decreases m - k,
        {
            let ghost tsk = ts.take(k as int + 1);
            proof {
                assert(tsk.drop_last() =~= ts.take(k as int));
                assert(tsk.last() == ts[k as int]);
                assert(ts[k as int] == raw_view(sorted@[k as int]));
                lemma_build(tsk, merge);
                lemma_build(ts.take(k as int), merge);
                assert(forall|a: int, b: int|
                    0 <= a < b < tsk.len() ==> raw_le(#[trigger] tsk[a], #[trigger] tsk[b]));
            }
            let name_new = if files.len() == 0 {
                true
            } else {
                !str_eq(files[files.len() - 1].as_str(), sorted[k].name.as_str())
            };
            if name_new {
                files.push(sorted[k].name.clone());
                proof {
                    assert(views_of(files@) =~= build_files(tsk));
                }
            } else {
                proof {
                    assert(views_of(files@) =~= build_files(tsk));
                }
            }
            let fid = files.len() - 1;
            proof {
                assert(fid as int == build_files(tsk).len() - 1);
            }
            let x_from = sorted[k].from;
            let x_level = sorted[k].level;
            let hn = hits.len();
            let do_merge = if merge && hn > 0 {
                let last = hits[hn - 1];
                last.file_id == fid && last.from + last.n_lines == x_from
            } else {
                false
            };
            if do_merge {
                let last = hits[hn - 1];
                hits.pop();
                hits.push(
                    GrepHit {
                        file_id: last.file_id,
                        from: last.from,
                        n_lines: last.n_lines + 1,
                        level: last.level,
                    },
                );
                proof {
                    assert(hits@ =~= build_hits(ts.take(k as int), merge).update(
                        hn - 1,
                        GrepHit {
                            n_lines: (build_hits(ts.take(k as int), merge).last().n_lines + 1) as usize,
                            ..build_hits(ts.take(k as int), merge).last()
                        },
                    ));
                    assert(hits@ =~= build_hits(tsk, merge));
                }
            } else {
                hits.push(GrepHit { file_id: fid, from: x_from, n_lines: 1, level: x_level });
                proof {
                    assert(hits@ =~= build_hits(tsk, merge));
                }
            }
            k = k + 1;
        }
        proof {
            assert(ts.take(m as int) =~= ts);
        }
        let res = GrepResult { files, hits };
        proof {
            assert(views_of(res.files@) == build_files(ts));
            assert(res.hits@ == build_hits(ts, merge));
            assert forall|a: int, b: int|
                0 <= a < b < res.files@.len() implies lex_lt(res.files@[a]@, res.files@[b]@) by {
                assert(views_of(res.files@)[a] == res.files@[a]@);
                assert(views_of(res.files@)[b] == res.files@[b]@);
            }
            assert forall|a: int|
                0 <= a < res.hits@.len() implies res.hit_in_range(#[trigger] res.hits@[a])
                && res.hits@[a].n_lines >= 1 by {
                assert(res.files@.len() == views_of(res.files@).len());
            }
        }
        Ok(res)
    }
}

} // verus!



