use vstd::prelude::*;

use crate::error::GeError;
use crate::git::views_of;
use crate::hunks::Hunks;
use crate::text::{
    all_digits, dec_str, dec_val, find_char_from, find_idx, has_prefix, lemma_find_idx,
    lemma_find_idx_of_first, lex_lt, parse_usize, split_lines, split_lines_s, str_eq,
    str_has_prefix, trim_s, trim_str,
};

verus! {

/// Marker overrides for the half-diff format; `None` keeps the default and
/// lets collision avoidance extend it.
pub struct HalfDiffConfig<'a> {
    pub header: Option<&'a str>,
    pub hunk: Option<&'a str>,
}

/// Owns the frozen hunks and the two markers; renders the editable half-diff
/// and parses the edited buffer back into a unified diff.
pub struct PatchBuilder {
    pub header_marker: String,
    pub hunk_marker: String,
    pub header_collision_avoidance: bool,
    pub hunk_collision_avoidance: bool,
    pub files: Vec<String>,
    pub hunks: Vec<(usize, usize, Vec<String>)>,
}

impl PatchBuilder {
    /// Files ascending and distinct; hunk keys `(file_id, from)` strictly
    /// ascending; every coordinate fits the machine.
    pub open spec fn wf(self) -> bool {
        (forall|i: int, j: int|
            0 <= i < j < self.files@.len() ==> lex_lt(self.files@[i]@, self.files@[j]@))
            && (forall|i: int|
            0 <= i < self.hunks@.len() ==> (#[trigger] self.hunks@[i]).0 < self.files@.len()
                && self.hunks@[i].1 + self.hunks@[i].2@.len() <= usize::MAX && self.hunks@[i].1
                < usize::MAX) && (forall|i: int, j: int|
            0 <= i < j < self.hunks@.len() ==> ((#[trigger] self.hunks@[i]).0
                < (#[trigger] self.hunks@[j]).0 || (self.hunks@[i].0 == self.hunks@[j].0
                && self.hunks@[i].1 < self.hunks@[j].1)))
    }
}

/// Some body line of some hunk starts with `m`.
pub open spec fn marker_collides(hs: Seq<(usize, usize, Vec<String>)>, m: Seq<char>) -> bool {
    exists|i: int, k: int|
        0 <= i < hs.len() && 0 <= k < hs[i].2@.len() && has_prefix(#[trigger] hs[i].2@[k]@, m)
}

/// `base` with `k` copies of `c` appended.
pub open spec fn extended_marker(base: Seq<char>, c: char, k: int) -> Seq<char>
    decreases k,
{
    if k <= 0 {
        base
    } else {
        extended_marker(base, c, k - 1).push(c)
    }
}

/// The least number of extensions, from `j` up to the bound of sixteen, that
/// yields a collision-free marker; -1 when every candidate collides.
pub open spec fn first_clear(
    hs: Seq<(usize, usize, Vec<String>)>,
    base: Seq<char>,
    c: char,
    j: int,
) -> int
    decreases 17 - j,
{
    if j < 0 || j >= 17 {
        -1
    } else if !marker_collides(hs, extended_marker(base, c, j)) {
        j
    } else {
        first_clear(hs, base, c, j + 1)
    }
}

/// Whether avoidance starting from `base` can settle on a usable marker.
pub open spec fn marker_ok(
    hs: Seq<(usize, usize, Vec<String>)>,
    base: Seq<char>,
    c: char,
    avoid: bool,
) -> bool {
    if avoid {
        first_clear(hs, base, c, 0) >= 0
    } else {
        !marker_collides(hs, base)
    }
}

/// The marker avoidance settles on, when one exists.
pub open spec fn resolved_marker(
    hs: Seq<(usize, usize, Vec<String>)>,
    base: Seq<char>,
    c: char,
    avoid: bool,
) -> Seq<char> {
    if avoid {
        extended_marker(base, c, first_clear(hs, base, c, 0))
    } else {
        base
    }
}

/// The header marker before avoidance: the override, or `+++`.
pub open spec fn header_base(h: Option<&str>) -> Seq<char> {
    match h {
        Some(m) => m@,
        None => "+++"@,
    }
}

/// The hunk marker before avoidance: the override, or `@@`.
pub open spec fn hunk_base(h: Option<&str>) -> Seq<char> {
    match h {
        Some(m) => m@,
        None => "@@"@,
    }
}

proof fn lemma_first_clear_at(
    hs: Seq<(usize, usize, Vec<String>)>,
    base: Seq<char>,
    c: char,
    j: int,
    i: int,
)
    requires
        0 <= j <= i <= 16,
        forall|k: int| j <= k < i ==> marker_collides(hs, extended_marker(base, c, k)),
        !marker_collides(hs, extended_marker(base, c, i)),
    ensures
        first_clear(hs, base, c, j) == i,
    decreases i - j,
{
    if j < i {
        lemma_first_clear_at(hs, base, c, j + 1, i);
    }
}

proof fn lemma_first_clear_none(
    hs: Seq<(usize, usize, Vec<String>)>,
    base: Seq<char>,
    c: char,
    j: int,
)
    requires
        0 <= j <= 17,
        forall|k: int| j <= k <= 16 ==> marker_collides(hs, extended_marker(base, c, k)),
    ensures
        first_clear(hs, base, c, j) == -1,
    decreases 17 - j,
{
    if j < 17 {
        lemma_first_clear_none(hs, base, c, j + 1);
    }
}

/// Whether any body line of `hs` starts with `marker`.
fn scan_hunks(hs: &Vec<(usize, usize, Vec<String>)>, marker: &str) -> (r: bool)
    ensures
        r == marker_collides(hs@, marker@),
{
    let n = hs.len();
    let mut i: usize = 0;
    while i < n
        invariant
            0 <= i <= n,
            n == hs@.len(),
            forall|ii: int, k: int|
                0 <= ii < i && 0 <= k < hs@[ii].2@.len() ==> !has_prefix(
                    #[trigger] hs@[ii].2@[k]@,
                    marker@,
                ),
        decreases n - i,
    {
        let lines = &hs[i].2;
        let m = lines.len();
        let mut k: usize = 0;
        while k < m
            invariant
                0 <= k <= m,
                0 <= i < n,
                n == hs@.len(),
                m == lines@.len(),
                lines@ == hs@[i as int].2@,
                forall|kk: int| 0 <= kk < k ==> !has_prefix(#[trigger] lines@[kk]@, marker@),
        decreases m - k,
        {
            if str_has_prefix(lines[k].as_str(), marker) {
                proof {
                    assert(has_prefix(hs@[i as int].2@[k as int]@, marker@));
                }
                return true;
            }
            k = k + 1;
        }
        i = i + 1;
    }
    false
}

impl PatchBuilder {
    /// Whether any stored body line starts with `marker`.
    pub fn scan_lines(&self, marker: &str) -> (r: bool)
        ensures
            r == marker_collides(self.hunks@, marker@),
    {
        scan_hunks(&self.hunks, marker)
    }
}

/// Extend `marker` by copies of the single character of `ext` until no body
/// line starts with it; bounded, and forbidden when `avoid` is off.
fn resolve_marker(
    hs: &Vec<(usize, usize, Vec<String>)>,
    marker: &mut String,
    ext: &str,
    avoid: bool,
) -> (r: Result<(), GeError>)
    requires
        ext@.len() == 1,
    ensures
        r is Ok <==> marker_ok(hs@, old(marker)@, ext@[0], avoid),
        r is Ok ==> final (marker)@ == resolved_marker(hs@, old(marker)@, ext@[0], avoid)
            && !marker_collides(hs@, final (marker)@),
        r is Err ==> r == Err::<(), GeError>(GeError::MarkerCollision),
{
    let ghost base = marker@;
    let ghost c = ext@[0];
    let mut i: usize = 0;
    while i < 17
        invariant
            0 <= i <= 16,
            avoid || i == 0,
            ext@.len() == 1,
            c == ext@[0],
            base == old(marker)@,
            marker@ == extended_marker(base, c, i as int),
            forall|k: int| 0 <= k < i ==> marker_collides(hs@, extended_marker(base, c, k)),
        decreases 17 - i,
    {
        if !scan_hunks(hs, marker.as_str()) {
            proof {
                if avoid {
                    lemma_first_clear_at(hs@, base, c, 0, i as int);
                } else {
                    assert(i == 0);
                }
            }
            return Ok(());
        }
        if i == 16 || !avoid {
            proof {
                if avoid {
                    lemma_first_clear_none(hs@, base, c, 0);
                }
            }
            return Err(GeError::MarkerCollision);
        }
        marker.append(ext);
        proof {
            assert(marker@ == extended_marker(base, c, i as int + 1));
        }
        i = i + 1;
    }
    proof {
        assert(false);
    }
    Err(GeError::MarkerCollision)
}

impl PatchBuilder {
    /// Extend each marker until no body line starts with it. Fails when a
    /// user-fixed marker collides, or when the bound is exhausted.
    pub fn avoid_collision(&mut self) -> (r: Result<(), GeError>)
        ensures
            final (self).files == old(self).files,
            final (self).hunks == old(self).hunks,
            final (self).header_collision_avoidance == old(self).header_collision_avoidance,
            final (self).hunk_collision_avoidance == old(self).hunk_collision_avoidance,
            r is Ok <==> marker_ok(
                old(self).hunks@,
                old(self).header_marker@,
                '+',
                old(self).header_collision_avoidance,
            ) && marker_ok(
                old(self).hunks@,
                old(self).hunk_marker@,
                '@',
                old(self).hunk_collision_avoidance,
            ),
            r is Ok ==> final (self).header_marker@ == resolved_marker(
                old(self).hunks@,
                old(self).header_marker@,
                '+',
                old(self).header_collision_avoidance,
            ) && final (self).hunk_marker@ == resolved_marker(
                old(self).hunks@,
                old(self).hunk_marker@,
                '@',
                old(self).hunk_collision_avoidance,
            ) && !marker_collides(final (self).hunks@, final (self).header_marker@)
                && !marker_collides(final (self).hunks@, final (self).hunk_marker@),
            r is Err ==> r == Err::<(), GeError>(GeError::MarkerCollision),
    {
        proof {
            reveal_strlit("+");
            reveal_strlit("@");
        }
        let hr = resolve_marker(
            &self.hunks,
            &mut self.header_marker,
            "+",
            self.header_collision_avoidance,
        );
        if let Err(e) = hr {
            return Err(e);
        }
        let qr = resolve_marker(
            &self.hunks,
            &mut self.hunk_marker,
            "@",
            self.hunk_collision_avoidance,
        );
        if let Err(e) = qr {
            return Err(e);
        }
        Ok(())
    }

    /// Take ownership of the hunks, choose the markers, and make sure no
    /// body line can be mistaken for a structural line.
    pub fn from_hunks(config: &HalfDiffConfig, hunks: Hunks) -> (r: Result<PatchBuilder, GeError>)
        requires
            hunks.wf(),
        ensures
            match r {
                Ok(b) => b.files == hunks.files && b.hunks == hunks.hunks && b.wf()
                    && b.header_collision_avoidance == config.header is None
                    && b.hunk_collision_avoidance == config.hunk is None && b.header_marker@
                    == resolved_marker(
                    hunks.hunks@,
                    header_base(config.header),
                    '+',
                    config.header is None,
                ) && b.hunk_marker@ == resolved_marker(
                    hunks.hunks@,
                    hunk_base(config.hunk),
                    '@',
                    config.hunk is None,
                ) && !marker_collides(b.hunks@, b.header_marker@) && !marker_collides(
                    b.hunks@,
                    b.hunk_marker@,
                ),
                Err(e) => e == GeError::MarkerCollision && !(marker_ok(
                    hunks.hunks@,
                    header_base(config.header),
                    '+',
                    config.header is None,
                ) && marker_ok(hunks.hunks@, hunk_base(config.hunk), '@', config.hunk is None)),
            },
    {
        let header_marker = match config.header {
            Some(m) => m.to_owned(),
            None => String::from_str("+++"),
        };
        let hunk_marker = match config.hunk {
            Some(m) => m.to_owned(),
            None => String::from_str("@@"),
        };
        let mut b = PatchBuilder {
            header_marker,
            hunk_marker,
            header_collision_avoidance: matches!(config.header, None),
            hunk_collision_avoidance: matches!(config.hunk, None),
            files: hunks.files,
            hunks: hunks.hunks,
        };
        let r = b.avoid_collision();
        if let Err(e) = r {
            return Err(e);
        }
        Ok(b)
    }
}

// ---------------------------------------------------------------------------
// Rendering the half-diff
// ---------------------------------------------------------------------------
/// The header line for file `name`, newline included.
pub open spec fn header_line_text(hm: Seq<char>, name: Seq<char>) -> Seq<char> {
    hm + seq![' '] + name + seq!['\n']
}

/// The hunk line for a hunk at zero-based `pos` with `n` body lines.
pub open spec fn hunk_line_text(qm: Seq<char>, pos: int, n: int) -> Seq<char> {
    qm + seq![' '] + dec_str(pos + 1) + seq![','] + dec_str(n) + seq!['\n']
}

/// The body of one hunk: each line verbatim, each with a newline.
pub open spec fn body_text(lines: Seq<Seq<char>>) -> Seq<char>
    decreases lines.len(),
{
    if lines.len() == 0 {
        Seq::empty()
    } else {
        body_text(lines.drop_last()) + lines.last() + seq!['\n']
    }
}

/// The half-diff from hunk `i` on, after a hunk of file `prev` (-1 first):
/// a header line wherever the file changes, then the hunk line and body.
pub open spec fn render_from(
    files: Seq<String>,
    hs: Seq<(usize, usize, Vec<String>)>,
    hm: Seq<char>,
    qm: Seq<char>,
    i: int,
    prev: int,
) -> Seq<char>
    decreases hs.len() - i,
{
    if i < 0 || i >= hs.len() {
        Seq::empty()
    } else {
        let h = hs[i];
        let head = if h.0 != prev {
            header_line_text(hm, files[h.0 as int]@)
        } else {
            Seq::empty()
        };
        head + hunk_line_text(qm, h.1 as int, h.2@.len() as int) + body_text(views_of(h.2@))
            + render_from(files, hs, hm, qm, i + 1, h.0 as int)
    }
}

/// The rendered half-diff of a builder.
pub open spec fn render_halfdiff(b: PatchBuilder) -> Seq<char> {
    render_from(b.files@, b.hunks@, b.header_marker@, b.hunk_marker@, 0, -1)
}

impl PatchBuilder {
    /// Render the editable half-diff: hunks in ascending order, a header
    /// line at each file change, coordinates one-based.
    #[verifier::rlimit(60)]
    pub fn write_halfdiff(&self) -> (out: String)
        requires
            self.wf(),
        ensures
            out@ == render_halfdiff(*self),
    {
        proof {
            reveal_strlit(" ");
            reveal_strlit(",");
            reveal_strlit("\n");
        }
        let mut out = String::new();
        let n = self.hunks.len();
        let mut i: usize = 0;
        let mut prev: Option<usize> = None;
        proof {
            assert(out@ =~= Seq::<char>::empty());
        }
        while i < n
            invariant
                0 <= i <= n,
                self.wf(),
                n == self.hunks@.len(),
                " "@ == seq![' '],
                ","@ == seq![','],
                "\n"@ == seq!['\n'],
                render_halfdiff(*self) == out@ + render_from(
                    self.files@,
                    self.hunks@,
                    self.header_marker@,
                    self.hunk_marker@,
                    i as int,
                    match prev {
                        Some(p) => p as int,
                        None => -1,
                    },
                ),
            decreases n - i,
        {
            let ghost prev_i: int = match prev {
                Some(p) => p as int,
                None => -1,
            };
            let ghost out0 = out@;
            let h0 = self.hunks[i].0;
            let h1 = self.hunks[i].1;
            proof {
                assert((#[trigger] self.hunks@[i as int]).0 < self.files@.len());
            }
            let emit_header = match prev {
                Some(p) => p != h0,
                None => true,
            };
            if emit_header {
                out.append(self.header_marker.as_str());
                out.append(" ");
                out.append(self.files[h0].as_str());
                out.append("\n");
                prev = Some(h0);
            }
            proof {
                if h0 as int != prev_i {
                    assert(out@ =~= out0 + header_line_text(
                        self.header_marker@,
                        self.files@[h0 as int]@,
                    ));
                } else {
                    assert(out@ =~= out0 + Seq::<char>::empty());
                }
            }
            let ghost out1 = out@;
            out.append(self.hunk_marker.as_str());
            out.append(" ");
            crate::text::append_dec(&mut out, h1 as u128 + 1);
            out.append(",");
            let lines = &self.hunks[i].2;
            let m = lines.len();
            crate::text::append_dec(&mut out, m as u128);
            out.append("\n");
            proof {
                assert(out@ =~= out1 + hunk_line_text(
                    self.hunk_marker@,
                    h1 as int,
                    self.hunks@[i as int].2@.len() as int,
                ));
            }
            let ghost out2 = out@;
            let mut k: usize = 0;
            proof {
                assert(body_text(views_of(lines@).take(0)) =~= Seq::<char>::empty());
                assert(out@ =~= out2 + body_text(views_of(lines@).take(0)));
            }
            while k < m
                invariant
                    0 <= k <= m,
                    m == lines@.len(),
                    "\n"@ == seq!['\n'],
                    out@ == out2 + body_text(views_of(lines@).take(k as int)),
                decreases m - k,
            {
                out.append(lines[k].as_str());
                out.append("\n");
                proof {
                    let vl = views_of(lines@);
                    assert(vl.take(k as int + 1).drop_last() =~= vl.take(k as int));
                    assert(vl.take(k as int + 1).last() == lines@[k as int]@);
                    assert(out@ =~= out2 + body_text(vl.take(k as int + 1)));
                }
                k = k + 1;
            }
            proof {
                let vl = views_of(lines@);
                assert(vl.take(m as int) =~= vl);
                assert(out@ =~= out2 + body_text(vl));
                // one unrolling of the remainder
                assert(render_from(
                    self.files@,
                    self.hunks@,
                    self.header_marker@,
                    self.hunk_marker@,
                    i as int,
                    prev_i,
                ) =~= (if h0 as int != prev_i {
                    header_line_text(self.header_marker@, self.files@[h0 as int]@)
                } else {
                    Seq::<char>::empty()
                }) + hunk_line_text(
                    self.hunk_marker@,
                    h1 as int,
                    self.hunks@[i as int].2@.len() as int,
                ) + body_text(vl) + render_from(
                    self.files@,
                    self.hunks@,
                    self.header_marker@,
                    self.hunk_marker@,
                    i as int + 1,
                    h0 as int,
                ));
                assert(render_halfdiff(*self) == out0 + render_from(
                    self.files@,
                    self.hunks@,
                    self.header_marker@,
                    self.hunk_marker@,
                    i as int,
                    prev_i,
                ));
                assert(out@ + render_from(
                    self.files@,
                    self.hunks@,
                    self.header_marker@,
                    self.hunk_marker@,
                    i as int + 1,
                    h0 as int,
                ) =~= out0 + render_from(
                    self.files@,
                    self.hunks@,
                    self.header_marker@,
                    self.hunk_marker@,
                    i as int,
                    prev_i,
                ));
            }
            i = i + 1;
        }
        proof {
            assert(render_from(
                self.files@,
                self.hunks@,
                self.header_marker@,
                self.hunk_marker@,
                n as int,
                match prev {
                    Some(p) => p as int,
                    None => -1,
                },
            ) =~= Seq::<char>::empty());
            assert(out@ =~= render_halfdiff(*self));
        }
        out
    }
}

// ---------------------------------------------------------------------------
// Parsing the edited half-diff: the machine at the specification level
// ---------------------------------------------------------------------------
/// The parser's accumulated state between input lines.
pub ghost struct AccState {
    /// Current file id; -1 before the first header line.
    pub cur_id: int,
    /// The coordinate text of the open hunk, when one is open.
    pub cur_hunk: Option<Seq<char>>,
    /// The edited body lines of the open hunk.
    pub buf: Seq<Seq<char>>,
    /// Lines inserted minus lines deleted by the hunks emitted so far in the
    /// current file.
    pub pos_diff: int,
    /// The unified-diff fragment of the current file: header, then hunks.
    pub file_text: Seq<char>,
    /// Whether that fragment holds any hunk yet.
    pub file_nonempty: bool,
}

/// The state before any input line.
pub open spec fn init_state() -> AccState {
    AccState {
        cur_id: -1,
        cur_hunk: None,
        buf: Seq::empty(),
        pos_diff: 0,
        file_text: Seq::empty(),
        file_nonempty: false,
    }
}

/// The zero-based position a hunk coordinate denotes, if any: the digits
/// before the first comma, read as a one-based line number.
pub open spec fn coord_pos(s: Seq<char>) -> Option<int> {
    let stop = find_idx(s, ',');
    let num = if stop < 0 {
        s
    } else {
        s.take(stop)
    };
    if num.len() > 0 && all_digits(num) && 1 <= dec_val(num) <= usize::MAX {
        Some(dec_val(num) - 1)
    } else {
        None
    }
}

/// The stored lines of the hunk keyed `(id, pos)`, if present.
pub open spec fn lookup_hunk(
    hs: Seq<(usize, usize, Vec<String>)>,
    id: int,
    pos: int,
) -> Option<Seq<Seq<char>>>
    decreases hs.len(),
{
    if hs.len() == 0 {
        None
    } else if hs[0].0 == id && hs[0].1 == pos {
        Some(views_of(hs[0].2@))
    } else {
        lookup_hunk(hs.skip(1), id, pos)
    }
}

/// The id of the file named `name`, if present.
pub open spec fn lookup_file(files: Seq<String>, name: Seq<char>) -> Option<int>
    decreases files.len(),
{
    if files.len() == 0 {
        None
    } else if files[0]@ == name {
        Some(0)
    } else {
        match lookup_file(files.skip(1), name) {
            Some(i) => Some(i + 1),
            None => None,
        }
    }
}

/// The line at `k`, or an empty line past the end: the padding that the
/// edited-body comparison uses.
pub open spec fn line_at(ls: Seq<Seq<char>>, k: int) -> Seq<char> {
    if 0 <= k < ls.len() {
        ls[k]
    } else {
        Seq::empty()
    }
}

/// Line-by-line difference, the shorter side padded with empty lines.
pub open spec fn edited_differs(buf: Seq<Seq<char>>, orig: Seq<Seq<char>>) -> bool {
    exists|k: int|
        0 <= k < (if buf.len() >= orig.len() {
            buf.len() as int
        } else {
            orig.len() as int
        }) && #[trigger] line_at(buf, k) != line_at(orig, k)
}

/// Each line of `ls` behind the mark `m`, with a newline.
pub open spec fn marked_lines(ls: Seq<Seq<char>>, m: Seq<char>) -> Seq<char>
    decreases ls.len(),
{
    if ls.len() == 0 {
        Seq::empty()
    } else {
        marked_lines(ls.drop_last(), m) + m + ls.last() + "\n"@
    }
}

/// The `---`/`+++` header of one file's patch.
pub open spec fn patch_header_text(name: Seq<char>) -> Seq<char> {
    "--- a/"@ + name + "\n"@ + "+++ b/"@ + name + "\n"@
}

/// The post-image start the emitter writes for a hunk at `pos` under the
/// running shift `pd`, coerced back to non-negative.
pub open spec fn emitted_new_from(pos: int, pd: int) -> int {
    if pos + pd >= 0 {
        pos + pd
    } else {
        0
    }
}

/// Unified-diff coordinate law: a hunk at `pos1` with `o1` original and
/// `e1` edited lines, emitted under the running shift `pd`, moves the shift
/// to `pd + e1 - o1` (see `spec_dump_hunk`); so the next emitted hunk of
/// the same file, at `pos2`, starts in the post-image exactly
/// `(pos2 - pos1) + (e1 - o1)` lines after the first, as long as neither
/// start is clamped at zero.
pub proof fn lemma_coordinate_law(pos1: int, o1: int, e1: int, pos2: int, pd: int)
    requires
        pos1 + pd >= 0,
        pos2 + pd + e1 - o1 >= 0,
    ensures
        emitted_new_from(pos2, pd + e1 - o1) - emitted_new_from(pos1, pd) == (pos2 - pos1) + (e1
            - o1),
{
}

/// The shift the emitted hunks before `k` leave behind: insertions minus
/// deletions, exactly how `spec_dump_hunk` moves `pos_diff`. Each record is
/// `(pos, original length, edited length)`.
pub open spec fn shift_before(hunks: Seq<(int, int, int)>, k: int) -> int
    decreases k,
{
    if k <= 0 {
        0
    } else {
        shift_before(hunks, k - 1) + hunks[k - 1].2 - hunks[k - 1].1
    }
}

/// The original lines the emitted hunks before `k` deleted.
pub open spec fn deleted_before(hunks: Seq<(int, int, int)>, k: int) -> int
    decreases k,
{
    if k <= 0 {
        0
    } else {
        deleted_before(hunks, k - 1) + hunks[k - 1].1
    }
}

proof fn lemma_deleted_before_bound(hunks: Seq<(int, int, int)>, k: int)
    requires
        forall|i: int|
            0 <= i < hunks.len() ==> (#[trigger] hunks[i]).0 >= 0 && hunks[i].1 >= 0 && hunks[i].2
                >= 0,
        forall|i: int|
            0 <= i < hunks.len() - 1 ==> (#[trigger] hunks[i]).0 + hunks[i].1 <= hunks[i + 1].0,
        0 <= k < hunks.len(),
    ensures
        deleted_before(hunks, k) <= hunks[k].0,
    decreases k,
{
    if k > 0 {
        lemma_deleted_before_bound(hunks, k - 1);
        assert(hunks[k - 1].0 + hunks[k - 1].1 <= hunks[k].0);
    }
}

/// Emitted in ascending disjoint order, a hunk's post-image start is never
/// clamped: at most `pos` original lines lie before position `pos`, so the
/// running shift cannot drag `pos + pos_diff` below zero.
pub proof fn lemma_no_clamp(hunks: Seq<(int, int, int)>, k: int)
    requires
        forall|i: int|
            0 <= i < hunks.len() ==> (#[trigger] hunks[i]).0 >= 0 && hunks[i].1 >= 0 && hunks[i].2
                >= 0,
        forall|i: int|
            0 <= i < hunks.len() - 1 ==> (#[trigger] hunks[i]).0 + hunks[i].1 <= hunks[i + 1].0,
        0 <= k < hunks.len(),
    ensures
        hunks[k].0 + shift_before(hunks, k) >= 0,
        emitted_new_from(hunks[k].0, shift_before(hunks, k)) == hunks[k].0 + shift_before(
            hunks,
            k,
        ),
{
    lemma_deleted_before_bound(hunks, k);
    lemma_shift_ge_neg_deleted(hunks, k);
}

proof fn lemma_shift_ge_neg_deleted(hunks: Seq<(int, int, int)>, k: int)
    requires
        forall|i: int|
            0 <= i < hunks.len() ==> (#[trigger] hunks[i]).0 >= 0 && hunks[i].1 >= 0 && hunks[i].2
                >= 0,
        0 <= k <= hunks.len(),
    ensures
        shift_before(hunks, k) >= -deleted_before(hunks, k),
    decreases k,
{
    if k > 0 {
        lemma_shift_ge_neg_deleted(hunks, k - 1);
    }
}

/// The unified-diff block for one changed hunk: every original line
/// deleted, every edited line inserted, no context.
pub open spec fn unified_hunk_text(
    pos: int,
    orig: Seq<Seq<char>>,
    buf: Seq<Seq<char>>,
    pos_diff: int,
) -> Seq<char> {
    let new_from = emitted_new_from(pos, pos_diff);
    "@@ -"@ + dec_str(pos) + ","@ + dec_str(orig.len() as int) + " +"@ + dec_str(new_from) + ","@
        + dec_str(buf.len() as int) + " @@\n"@ + marked_lines(orig, "-"@) + marked_lines(
        buf,
        "+"@,
    )
}

/// Close the open hunk, emitting it when its body was edited.
pub open spec fn spec_dump_hunk(hs: Seq<(usize, usize, Vec<String>)>, st: AccState) -> Result<
    AccState,
    GeError,
> {
    match st.cur_hunk {
        None => Ok(st),
        Some(coord) => match coord_pos(coord) {
            None => Err(GeError::MalformedHunkCoordinate),
            Some(pos) => match lookup_hunk(hs, st.cur_id, pos) {
                None => Err(GeError::UnknownHunk),
                Some(orig) => if edited_differs(st.buf, orig) {
                    Ok(
                        AccState {
                            cur_hunk: None,
                            buf: Seq::empty(),
                            pos_diff: st.pos_diff + st.buf.len() - orig.len(),
                            file_text: st.file_text + unified_hunk_text(
                                pos,
                                orig,
                                st.buf,
                                st.pos_diff,
                            ),
                            file_nonempty: true,
                            ..st
                        },
                    )
                } else {
                    Ok(AccState { cur_hunk: None, buf: Seq::empty(), ..st })
                },
            },
        },
    }
}

/// Flush the current file's patch: the state afterwards, and what goes to
/// the output (nothing when the file holds no hunk).
pub open spec fn spec_flush_file(st: AccState) -> (AccState, Seq<char>) {
    if st.file_nonempty {
        (AccState { file_text: Seq::empty(), file_nonempty: false, ..st }, st.file_text)
    } else {
        (st, Seq::empty())
    }
}

/// One input line: the state afterwards and what the line flushes to the
/// output, or the error it raises.
pub open spec fn spec_step(
    files: Seq<String>,
    hs: Seq<(usize, usize, Vec<String>)>,
    hm: Seq<char>,
    qm: Seq<char>,
    st: AccState,
    line: Seq<char>,
) -> Result<(AccState, Seq<char>), GeError> {
    if has_prefix(line, hm) {
        match spec_dump_hunk(hs, st) {
            Err(e) => Err(e),
            Ok(st1) => {
                let name = trim_s(line.skip(hm.len() as int));
                match lookup_file(files, name) {
                    None => Err(GeError::UnknownFile),
                    Some(id) => {
                        let flushed = spec_flush_file(st1);
                        Ok(
                            (
                                AccState {
                                    cur_id: id,
                                    cur_hunk: None,
                                    buf: Seq::empty(),
                                    pos_diff: 0,
                                    file_text: patch_header_text(name),
                                    file_nonempty: false,
                                },
                                flushed.1,
                            ),
                        )
                    },
                }
            },
        }
    } else if has_prefix(line, qm) {
        match spec_dump_hunk(hs, st) {
            Err(e) => Err(e),
            Ok(st1) => if st1.cur_id < 0 {
                Err(GeError::OrphanLine)
            } else {
                Ok(
                    (
                        AccState {
                            cur_hunk: Some(trim_s(line.skip(qm.len() as int))),
                            buf: Seq::empty(),
                            ..st1
                        },
                        Seq::empty(),
                    ),
                )
            },
        }
    } else {
        if st.cur_id < 0 || st.cur_hunk is None {
            Err(GeError::OrphanLine)
        } else {
            Ok((AccState { buf: st.buf.push(line), ..st }, Seq::empty()))
        }
    }
}

/// Run the machine over the remaining lines: the text it appends to the
/// output, or the first error.
pub open spec fn spec_run(
    files: Seq<String>,
    hs: Seq<(usize, usize, Vec<String>)>,
    hm: Seq<char>,
    qm: Seq<char>,
    st: AccState,
    lines: Seq<Seq<char>>,
) -> Result<Seq<char>, GeError>
    decreases lines.len(),
{
    if lines.len() == 0 {
        match spec_dump_hunk(hs, st) {
            Err(e) => Err(e),
            Ok(st1) => Ok(spec_flush_file(st1).1),
        }
    } else {
        match spec_step(files, hs, hm, qm, st, lines[0]) {
            Err(e) => Err(e),
            Ok(p) => match spec_run(files, hs, hm, qm, p.0, lines.skip(1)) {
                Err(e) => Err(e),
                Ok(rest) => Ok(p.1 + rest),
            },
        }
    }
}

/// What parsing the whole edited text yields.
pub open spec fn parse_result(b: PatchBuilder, text: Seq<char>) -> Result<Seq<char>, GeError> {
    spec_run(
        b.files@,
        b.hunks@,
        b.header_marker@,
        b.hunk_marker@,
        init_state(),
        split_lines_s(text),
    )
}

// ---------------------------------------------------------------------------
// Parsing the edited half-diff: the executable machine
// ---------------------------------------------------------------------------
proof fn lemma_lookup_hunk_at(hs: Seq<(usize, usize, Vec<String>)>, id: int, pos: int, j: int)
    requires
        0 <= j < hs.len(),
        hs[j].0 == id && hs[j].1 == pos,
        forall|k: int| 0 <= k < j ==> !((#[trigger] hs[k]).0 == id && hs[k].1 == pos),
    ensures
        lookup_hunk(hs, id, pos) == Some(views_of(hs[j].2@)),
    decreases j,
{
    if j > 0 {
        let s1 = hs.skip(1);
        assert(forall|k: int| 0 <= k < s1.len() ==> s1[k] == hs[k + 1]);
        lemma_lookup_hunk_at(s1, id, pos, j - 1);
    }
}

proof fn lemma_lookup_hunk_none(hs: Seq<(usize, usize, Vec<String>)>, id: int, pos: int)
    requires
        forall|k: int| 0 <= k < hs.len() ==> !((#[trigger] hs[k]).0 == id && hs[k].1 == pos),
    ensures
        lookup_hunk(hs, id, pos) is None,
    decreases hs.len(),
{
    if hs.len() > 0 {
        let s1 = hs.skip(1);
        assert(forall|k: int| 0 <= k < s1.len() ==> s1[k] == hs[k + 1]);
        lemma_lookup_hunk_none(s1, id, pos);
    }
}

proof fn lemma_lookup_file_at(files: Seq<String>, name: Seq<char>, j: int)
    requires
        0 <= j < files.len(),
        files[j]@ == name,
        forall|k: int| 0 <= k < j ==> files[k]@ != name,
    ensures
        lookup_file(files, name) == Some(j),
    decreases j,
{
    if j > 0 {
        let s1 = files.skip(1);
        assert(forall|k: int| 0 <= k < s1.len() ==> s1[k] == files[k + 1]);
        lemma_lookup_file_at(s1, name, j - 1);
    }
}

proof fn lemma_lookup_file_none(files: Seq<String>, name: Seq<char>)
    requires
        forall|k: int| 0 <= k < files.len() ==> files[k]@ != name,
    ensures
        lookup_file(files, name) is None,
    decreases files.len(),
{
    if files.len() > 0 {
        let s1 = files.skip(1);
        assert(forall|k: int| 0 <= k < s1.len() ==> s1[k] == files[k + 1]);
        lemma_lookup_file_none(s1, name);
    }
}

/// The stored hunk with key `(id, pos)`, by linear search.
fn find_hunk<'a>(hs: &'a Vec<(usize, usize, Vec<String>)>, id: usize, pos: usize) -> (r: Option<
    &'a Vec<String>,
>)
    ensures
        match r {
            Some(v) => lookup_hunk(hs@, id as int, pos as int) == Some(views_of(v@)),
            None => lookup_hunk(hs@, id as int, pos as int) is None,
        },
{
    let n = hs.len();
    let mut j: usize = 0;
    while j < n
        invariant
            0 <= j <= n,
            n == hs@.len(),
            forall|k: int| 0 <= k < j ==> !((#[trigger] hs@[k]).0 == id && hs@[k].1 == pos),
        decreases n - j,
    {
        if hs[j].0 == id && hs[j].1 == pos {
            proof {
                lemma_lookup_hunk_at(hs@, id as int, pos as int, j as int);
            }
            return Some(&hs[j].2);
        }
        j = j + 1;
    }
    proof {
        lemma_lookup_hunk_none(hs@, id as int, pos as int);
    }
    None
}

/// The id of the file named `name`, by linear search.
fn find_file(files: &Vec<String>, name: &str) -> (r: Option<usize>)
    ensures
        match r {
            Some(i) => lookup_file(files@, name@) == Some(i as int),
            None => lookup_file(files@, name@) is None,
        },
{
    let n = files.len();
    let mut j: usize = 0;
    while j < n
        invariant
            0 <= j <= n,
            n == files@.len(),
            forall|k: int| 0 <= k < j ==> files@[k]@ != name@,
        decreases n - j,
    {
        if str_eq(files[j].as_str(), name) {
            proof {
                lemma_lookup_file_at(files@, name@, j as int);
            }
            return Some(j);
        }
        j = j + 1;
    }
    proof {
        lemma_lookup_file_none(files@, name@);
    }
    None
}

/// Collects the unified-diff fragment of one file: the `---`/`+++` header,
/// then every emitted hunk.
pub struct HunkAccumulator {
    pub buf: String,
    pub nonempty: bool,
}

impl HunkAccumulator {
    pub fn new() -> (r: HunkAccumulator)
        ensures
            r.buf@ == Seq::<char>::empty(),
            !r.nonempty,
    {
        HunkAccumulator { buf: String::new(), nonempty: false }
    }

    /// Whether the fragment still holds no hunk.
    pub fn is_empty(&self) -> (r: bool)
        ensures
            r == !self.nonempty,
    {
        !self.nonempty
    }

    /// Begin the patch of one file.
    pub fn open_new_patch(&mut self, filename: &str)
        ensures
            final (self).buf@ == patch_header_text(filename@),
            !final (self).nonempty,
    {
        self.buf = String::new();
        self.buf.append("--- a/");
        self.buf.append(filename);
        self.buf.append("\n");
        self.buf.append("+++ b/");
        self.buf.append(filename);
        self.buf.append("\n");
        self.nonempty = false;
        proof {
            assert(self.buf@ =~= patch_header_text(filename@));
        }
    }

    /// Append one emitted hunk.
    pub fn push_hunk(&mut self, hunk: &str)
        ensures
            final (self).buf@ == old(self).buf@ + hunk@,
            final (self).nonempty,
    {
        self.buf.append(hunk);
        self.nonempty = true;
    }

    /// Flush the fragment to the output when it holds at least one hunk.
    pub fn dump_patch(&mut self, acc: &mut String)
        ensures
            final (acc)@ == old(acc)@ + spec_flush_file(
                AccState {
                    cur_id: -1,
                    cur_hunk: None,
                    buf: Seq::empty(),
                    pos_diff: 0,
                    file_text: old(self).buf@,
                    file_nonempty: old(self).nonempty,
                },
            ).1,
            final (self).buf@ == spec_flush_file(
                AccState {
                    cur_id: -1,
                    cur_hunk: None,
                    buf: Seq::empty(),
                    pos_diff: 0,
                    file_text: old(self).buf@,
                    file_nonempty: old(self).nonempty,
                },
            ).0.file_text,
            !final (self).nonempty,
    {
        if self.nonempty {
            acc.append(self.buf.as_str());
            self.buf = String::new();
            self.nonempty = false;
        } else {
            proof {
                assert(final (acc)@ =~= old(acc)@);
            }
        }
    }
}

/// Collects the edited body of the open hunk and tracks how far earlier
/// edits in the file have shifted the post-image line numbers.
pub struct LineAccumulator {
    pub id: Option<usize>,
    pub hunk: Option<String>,
    pub buf: Vec<String>,
    /// Post-image lines emitted for this file so far.
    pub ins: u128,
    /// Pre-image lines deleted for this file so far.
    pub del: u128,
}

/// The machine state the two accumulators stand for.
pub open spec fn acc_state(la: LineAccumulator, ha: HunkAccumulator) -> AccState {
    AccState {
        cur_id: match la.id {
            Some(i) => i as int,
            None => -1,
        },
        cur_hunk: match la.hunk {
            Some(s) => Some(s@),
            None => None,
        },
        buf: views_of(la.buf@),
        pos_diff: la.ins - la.del,
        file_text: ha.buf@,
        file_nonempty: ha.nonempty,
    }
}

impl LineAccumulator {
    pub fn new() -> (r: LineAccumulator)
        ensures
            r.id is None,
            r.hunk is None,
            r.buf@.len() == 0,
            r.ins == 0,
            r.del == 0,
    {
        LineAccumulator { id: None, hunk: None, buf: Vec::new(), ins: 0, del: 0 }
    }

    /// Whether body lines have nowhere to go.
    pub fn is_empty(&self) -> (r: bool)
        ensures
            r == (self.id is None || self.hunk is None),
    {
        self.id.is_none() || self.hunk.is_none()
    }

    /// Enter the file with the given id.
    pub fn open_new_file(&mut self, id: usize)
        ensures
            (*final (self) == LineAccumulator { id: Some(id), ..*old(self) }),
    {
        self.id = Some(id);
    }

    /// Open a hunk with the given coordinate text.
    pub fn open_new_hunk(&mut self, coord: String)
        ensures
            final (self).hunk == Some(coord),
            final (self).buf@.len() == 0,
            final (self).id == old(self).id,
            final (self).ins == old(self).ins,
            final (self).del == old(self).del,
    {
        self.hunk = Some(coord);
        self.buf = Vec::new();
    }

    /// Buffer one edited body line.
    pub fn push_line(&mut self, line: &str)
        requires
            old(self).id is Some,
            old(self).hunk is Some,
        ensures
            final (self).id == old(self).id,
            final (self).hunk == old(self).hunk,
            final (self).ins == old(self).ins,
            final (self).del == old(self).del,
            views_of(final (self).buf@) == views_of(old(self).buf@).push(line@),
    {
        self.buf.push(line.to_owned());
        proof {
            assert(views_of(self.buf@) =~= views_of(old(self).buf@).push(line@));
        }
    }

    /// Whether the buffered body differs from the original lines, the
    /// shorter side padded with empty lines.
    pub fn is_edited(&self, original: &Vec<String>) -> (r: bool)
        ensures
            r == edited_differs(views_of(self.buf@), views_of(original@)),
    {
        let bn = self.buf.len();
        let on = original.len();
        let n = if bn >= on {
            bn
        } else {
            on
        };
        let mut k: usize = 0;
        while k < n
            invariant
                0 <= k <= n,
                bn == self.buf@.len(),
                on == original@.len(),
                n == if bn >= on {
                    bn as int
                } else {
                    on as int
                },
                forall|kk: int|
                    0 <= kk < k ==> #[trigger] line_at(views_of(self.buf@), kk) == line_at(
                        views_of(original@),
                        kk,
                    ),
            decreases n - k,
        {
            let differs = if k < bn && k < on {
                !str_eq(self.buf[k].as_str(), original[k].as_str())
            } else if k < bn {
                !self.buf[k].as_str().is_empty()
            } else {
                !original[k].as_str().is_empty()
            };
            proof {
                if k < bn {
                    assert(line_at(views_of(self.buf@), k as int) == self.buf@[k as int]@);
                } else {
                    assert(line_at(views_of(self.buf@), k as int) == Seq::<char>::empty());
                }
                if k < on {
                    assert(line_at(views_of(original@), k as int) == original@[k as int]@);
                } else {
                    assert(line_at(views_of(original@), k as int) == Seq::<char>::empty());
                }
            }
            if differs {
                proof {
                    assert(line_at(views_of(self.buf@), k as int) != line_at(
                        views_of(original@),
                        k as int,
                    ));
                }
                return true;
            }
            k = k + 1;
        }
        false
    }
}

impl LineAccumulator {
    /// Close the open hunk: parse its coordinate, look the original up, and
    /// emit a unified-diff block when the body was edited.
    pub fn dump_hunk(&mut self, hunks: &Vec<(usize, usize, Vec<String>)>, acc: &mut HunkAccumulator) -> (r:
        Result<(), GeError>)
        requires
            old(self).ins <= u128::MAX - (usize::MAX as u128),
            old(self).del <= u128::MAX - (usize::MAX as u128),
        ensures
            match r {
                Ok(()) => spec_dump_hunk(hunks@, acc_state(*old(self), *old(acc))) == Ok::<
                    AccState,
                    GeError,
                >(acc_state(*final (self), *final (acc))),
                Err(e) => spec_dump_hunk(hunks@, acc_state(*old(self), *old(acc))) == Err::<
                    AccState,
                    GeError,
                >(e),
            },
            final (self).id == old(self).id,
            final (self).ins >= old(self).ins,
            final (self).ins <= old(self).ins + old(self).buf@.len(),
            final (self).del <= old(self).del + (usize::MAX as u128),
            r is Ok ==> final (self).buf@.len() == 0 || *final (self) == *old(self),
    {
        let coord = match &self.hunk {
            None => {
                return Ok(());
            },
            Some(c) => c.clone(),
        };
        let ghost gcoord = coord@;
        let clen = coord.unicode_len();
        let num_end = match find_char_from(coord.as_str(), ',', 0) {
            Some(j) => {
                proof {
                    lemma_find_idx_of_first(gcoord, ',', j as int);
                }
                j
            },
            None => {
                proof {
                    lemma_find_idx(gcoord, ',');
                    if find_idx(gcoord, ',') >= 0 {
                        assert(gcoord[find_idx(gcoord, ',')] == ',');
                    }
                }
                clen
            },
        };
        let num = coord.as_str().substring_char(0, num_end);
        proof {
            let stop = find_idx(gcoord, ',');
            if stop < 0 {
                assert(num@ =~= gcoord);
            } else {
                assert(num@ =~= gcoord.take(stop));
            }
        }
        let v = match parse_usize(num) {
            Some(v) => v,
            None => {
                return Err(GeError::MalformedHunkCoordinate);
            },
        };
        if v == 0 {
            return Err(GeError::MalformedHunkCoordinate);
        }
        let pos = v - 1;
        let id = match self.id {
            Some(i) => i,
            None => {
                proof {
                    lemma_lookup_hunk_none(hunks@, -1, pos as int);
                }
                return Err(GeError::UnknownHunk);
            },
        };
        let orig = match find_hunk(hunks, id, pos) {
            Some(v) => v,
            None => {
                return Err(GeError::UnknownHunk);
            },
        };
        if !self.is_edited(orig) {
            self.hunk = None;
            self.buf = Vec::new();
            proof {
                assert(views_of(self.buf@) =~= Seq::<Seq<char>>::empty());
            }
            return Ok(());
        }
        let ghost gorig = views_of(orig@);
        let ghost gbuf = views_of(old(self).buf@);
        let ghost gpd = old(self).ins - old(self).del;
        let mut text = String::new();
        text.append("@@ -");
        crate::text::append_dec(&mut text, pos as u128);
        text.append(",");
        let on = orig.len();
        crate::text::append_dec(&mut text, on as u128);
        text.append(" +");
        let new_from: u128 = if pos as u128 + self.ins >= self.del {
            pos as u128 + self.ins - self.del
        } else {
            0
        };
        crate::text::append_dec(&mut text, new_from);
        text.append(",");
        let bn = self.buf.len();
        crate::text::append_dec(&mut text, bn as u128);
        text.append(" @@\n");
        let ghost head = text@;
        let mut k: usize = 0;
        proof {
            assert(marked_lines(gorig.take(0), "-"@) =~= Seq::<char>::empty());
            assert(text@ =~= head + marked_lines(gorig.take(0), "-"@));
        }
        while k < on
            invariant
                0 <= k <= on,
                on == orig@.len(),
                gorig == views_of(orig@),
                text@ == head + marked_lines(gorig.take(k as int), "-"@),
            decreases on - k,
        {
            text.append("-");
            text.append(orig[k].as_str());
            text.append("\n");
            proof {
                assert(gorig.take(k as int + 1).drop_last() =~= gorig.take(k as int));
                assert(gorig.take(k as int + 1).last() == orig@[k as int]@);
                assert(text@ =~= head + marked_lines(gorig.take(k as int + 1), "-"@));
            }
            k = k + 1;
        }
        let ghost mid = text@;
        proof {
            assert(gorig.take(on as int) =~= gorig);
            assert(marked_lines(gbuf.take(0), "+"@) =~= Seq::<char>::empty());
            assert(text@ =~= mid + marked_lines(gbuf.take(0), "+"@));
        }
        let mut k2: usize = 0;
        while k2 < bn
            invariant
                0 <= k2 <= bn,
                bn == self.buf@.len(),
                self.buf == old(self).buf,
                gbuf == views_of(self.buf@),
                text@ == mid + marked_lines(gbuf.take(k2 as int), "+"@),
            decreases bn - k2,
        {
            text.append("+");
            text.append(self.buf[k2].as_str());
            text.append("\n");
            proof {
                assert(gbuf.take(k2 as int + 1).drop_last() =~= gbuf.take(k2 as int));
                assert(gbuf.take(k2 as int + 1).last() == self.buf@[k2 as int]@);
                assert(text@ =~= mid + marked_lines(gbuf.take(k2 as int + 1), "+"@));
            }
            k2 = k2 + 1;
        }
        proof {
            assert(gbuf.take(bn as int) =~= gbuf);
            assert(text@ =~= unified_hunk_text(pos as int, gorig, gbuf, gpd));
        }
        acc.push_hunk(text.as_str());
        self.ins = self.ins + bn as u128;
        self.del = self.del + on as u128;
        self.hunk = None;
        self.buf = Vec::new();
        proof {
            assert(views_of(self.buf@) =~= Seq::<Seq<char>>::empty());
            assert(acc_state(*self, *acc).pos_diff == gpd + gbuf.len() - gorig.len());
        }
        Ok(())
    }
}

impl PatchBuilder {
    /// Parse the edited half-diff into a unified diff: a `---`/`+++` header
    /// per touched file, one zero-context block per changed hunk, unchanged
    /// hunks suppressed.
    #[verifier::rlimit(90)]
    pub fn parse_halfdiff(&self, diff: &str) -> (r: Result<String, GeError>)
        ensures
            match r {
                Ok(patch) => parse_result(*self, diff@) == Ok::<Seq<char>, GeError>(patch@),
                Err(e) => parse_result(*self, diff@) == Err::<Seq<char>, GeError>(e),
            },
    {
        let ghost gf = self.files@;
        let ghost gh = self.hunks@;
        let ghost ghm = self.header_marker@;
        let ghost gqm = self.hunk_marker@;
        let lines = split_lines(diff);
        let ghost all = split_lines_s(diff@);
        let n = lines.len();
        let mut out = String::new();
        let mut ha = HunkAccumulator::new();
        let mut la = LineAccumulator::new();
        let mut i: usize = 0;
        proof {
            assert(all.skip(0) =~= all);
            assert(views_of(la.buf@) =~= Seq::<Seq<char>>::empty());
            assert(acc_state(la, ha) == init_state());
            assert(out@ =~= Seq::<char>::empty());
            assert(out@ + spec_run(gf, gh, ghm, gqm, init_state(), all)->Ok_0 =~= spec_run(
                gf,
                gh,
                ghm,
                gqm,
                init_state(),
                all,
            )->Ok_0);
        }
        while i < n
            invariant
                0 <= i <= n,
                n == lines@.len(),
                lines@.map_values(|l: String| l@) == all,
                all == split_lines_s(diff@),
                gf == self.files@,
                gh == self.hunks@,
                ghm == self.header_marker@,
                gqm == self.hunk_marker@,
                la.ins + views_of(la.buf@).len() <= i,
                la.del as int <= i as int * (usize::MAX as int),
                spec_run(gf, gh, ghm, gqm, init_state(), all) == (match spec_run(
                    gf,
                    gh,
                    ghm,
                    gqm,
                    acc_state(la, ha),
                    all.skip(i as int),
                ) {
                    Err(e) => Err(e),
                    Ok(rest) => Ok(out@ + rest),
                }),
            decreases n - i,
        {
            let ghost st0 = acc_state(la, ha);
            let ghost out0 = out@;
            let ghost rem = all.skip(i as int);
            proof {
                assert(rem.len() == n - i);
                assert(rem[0] == all[i as int]);
                assert(all[i as int] == lines@[i as int]@);
                assert(rem.skip(1) =~= all.skip(i as int + 1));
                assert(la.del as int <= (usize::MAX as int) * (usize::MAX as int))
                    by (nonlinear_arith)
                    requires
                        la.del as int <= i as int * (usize::MAX as int),
                        0 <= i as int <= usize::MAX as int,
                ;
                assert((usize::MAX as int) * (usize::MAX as int) <= u128::MAX as int - (usize::MAX
                    as int));
            }
            let l = lines[i].as_str();
            let llen = l.unicode_len();
            if str_has_prefix(l, self.header_marker.as_str()) {
                let dr = la.dump_hunk(&self.hunks, &mut ha);
                if let Err(e) = dr {
                    proof {
                        assert(spec_step(gf, gh, ghm, gqm, st0, rem[0]) == Err::<
                            (AccState, Seq<char>),
                            GeError,
                        >(e));
                        assert(spec_run(gf, gh, ghm, gqm, st0, rem) == Err::<Seq<char>, GeError>(
                            e,
                        ));
                    }
                    return Err(e);
                }
                let ghost st1 = acc_state(la, ha);
                ha.dump_patch(&mut out);
                proof {
                    assert(spec_flush_file(st1).1 == (if st1.file_nonempty {
                        st1.file_text
                    } else {
                        Seq::<char>::empty()
                    }));
                }
                let hlen = self.header_marker.unicode_len();
                let sub = l.substring_char(hlen, llen);
                let name = trim_str(sub);
                proof {
                    assert(sub@ =~= rem[0].skip(ghm.len() as int));
                    assert(name@ == trim_s(rem[0].skip(ghm.len() as int)));
                }
                match find_file(&self.files, name) {
                    None => {
                        proof {
                            assert(spec_step(gf, gh, ghm, gqm, st0, rem[0]) == Err::<
                                (AccState, Seq<char>),
                                GeError,
                            >(GeError::UnknownFile));
                            assert(spec_run(gf, gh, ghm, gqm, st0, rem) == Err::<
                                Seq<char>,
                                GeError,
                            >(GeError::UnknownFile));
                        }
                        return Err(GeError::UnknownFile);
                    },
                    Some(id) => {
                        ha.open_new_patch(name);
                        la.open_new_file(id);
                        la.ins = 0;
                        la.del = 0;
                        la.hunk = None;
                        la.buf = Vec::new();
                        proof {
                            let stp = spec_step(gf, gh, ghm, gqm, st0, rem[0]);
                            assert(stp is Ok);
                            assert(views_of(la.buf@) =~= Seq::<Seq<char>>::empty());
                            assert(acc_state(la, ha) == stp->Ok_0.0);
                        }
                    },
                }
            } else if str_has_prefix(l, self.hunk_marker.as_str()) {
                let dr = la.dump_hunk(&self.hunks, &mut ha);
                if let Err(e) = dr {
                    proof {
                        assert(spec_step(gf, gh, ghm, gqm, st0, rem[0]) == Err::<
                            (AccState, Seq<char>),
                            GeError,
                        >(e));
                        assert(spec_run(gf, gh, ghm, gqm, st0, rem) == Err::<Seq<char>, GeError>(
                            e,
                        ));
                    }
                    return Err(e);
                }
                if la.id.is_none() {
                    proof {
                        assert(spec_step(gf, gh, ghm, gqm, st0, rem[0]) == Err::<
                            (AccState, Seq<char>),
                            GeError,
                        >(GeError::OrphanLine));
                        assert(spec_run(gf, gh, ghm, gqm, st0, rem) == Err::<Seq<char>, GeError>(
                            GeError::OrphanLine,
                        ));
                    }
                    return Err(GeError::OrphanLine);
                }
                let qlen = self.hunk_marker.unicode_len();
                let sub = l.substring_char(qlen, llen);
                let coordstr = trim_str(sub).to_owned();
                proof {
                    assert(sub@ =~= rem[0].skip(gqm.len() as int));
                    assert(coordstr@ == trim_s(rem[0].skip(gqm.len() as int)));
                }
                la.open_new_hunk(coordstr);
                proof {
                    let stp = spec_step(gf, gh, ghm, gqm, st0, rem[0]);
                    assert(stp is Ok);
                    assert(views_of(la.buf@) =~= Seq::<Seq<char>>::empty());
                    assert(acc_state(la, ha) == stp->Ok_0.0);
                    assert(stp->Ok_0.1 =~= Seq::<char>::empty());
                }
            } else {
                if la.id.is_none() || la.hunk.is_none() {
                    proof {
                        assert(spec_step(gf, gh, ghm, gqm, st0, rem[0]) == Err::<
                            (AccState, Seq<char>),
                            GeError,
                        >(GeError::OrphanLine));
                        assert(spec_run(gf, gh, ghm, gqm, st0, rem) == Err::<Seq<char>, GeError>(
                            GeError::OrphanLine,
                        ));
                    }
                    return Err(GeError::OrphanLine);
                }
                la.push_line(l);
                proof {
                    let stp = spec_step(gf, gh, ghm, gqm, st0, rem[0]);
                    assert(stp is Ok);
                    assert(acc_state(la, ha) == stp->Ok_0.0);
                    assert(stp->Ok_0.1 =~= Seq::<char>::empty());
                }
            }
            proof {
                let stp = spec_step(gf, gh, ghm, gqm, st0, rem[0]);
                assert(stp is Ok);
                let strest = spec_run(gf, gh, ghm, gqm, acc_state(la, ha), all.skip(i as int + 1));
                assert(spec_run(gf, gh, ghm, gqm, st0, rem) == (match strest {
                    Err(e) => Err::<Seq<char>, GeError>(e),
                    Ok(rest) => Ok::<Seq<char>, GeError>(stp->Ok_0.1 + rest),
                }));
                if strest is Ok {
                    assert(out@ + strest->Ok_0 =~= out0 + (stp->Ok_0.1 + strest->Ok_0));
                }
            }
            i = i + 1;
        }
        proof {
            assert(all.skip(n as int) =~= Seq::<Seq<char>>::empty());
            assert(la.del as int <= (usize::MAX as int) * (usize::MAX as int)) by (nonlinear_arith)
                requires
                    la.del as int <= n as int * (usize::MAX as int),
                    0 <= n as int <= usize::MAX as int,
            ;
            assert((usize::MAX as int) * (usize::MAX as int) <= u128::MAX as int - (usize::MAX
                as int));
        }
        let ghost stn = acc_state(la, ha);
        let dr = la.dump_hunk(&self.hunks, &mut ha);
        if let Err(e) = dr {
            proof {
                assert(spec_run(gf, gh, ghm, gqm, stn, Seq::<Seq<char>>::empty()) == Err::<
                    Seq<char>,
                    GeError,
                >(e));
            }
            return Err(e);
        }
        let ghost st1 = acc_state(la, ha);
        ha.dump_patch(&mut out);
        proof {
            assert(spec_run(gf, gh, ghm, gqm, stn, Seq::<Seq<char>>::empty()) == Ok::<
                Seq<char>,
                GeError,
            >(spec_flush_file(st1).1));
        }
        Ok(out)
    }
}

// ---------------------------------------------------------------------------
// The round trip: an unedited half-diff parses to an empty patch
// ---------------------------------------------------------------------------
/// No newline anywhere in `s`.
pub open spec fn no_nl(s: Seq<char>) -> bool {
    forall|k: int| 0 <= k < s.len() ==> s[k] != '\n'
}

/// A file name that survives line splitting and trimming unchanged.
pub open spec fn clean_name(s: Seq<char>) -> bool {
    s.len() > 0 && no_nl(s) && !crate::text::is_ws(s[0]) && !crate::text::is_ws(s[s.len() - 1])
}

/// A body line that survives line splitting unchanged.
pub open spec fn clean_line(s: Seq<char>) -> bool {
    no_nl(s) && (s.len() > 0 ==> s[s.len() - 1] != '\r')
}

/// A header line without its newline.
pub open spec fn header_line_bare(hm: Seq<char>, name: Seq<char>) -> Seq<char> {
    hm + seq![' '] + name
}

/// A hunk line without its newline.
pub open spec fn hunk_line_bare(qm: Seq<char>, pos: int, n: int) -> Seq<char> {
    qm + seq![' '] + dec_str(pos + 1) + seq![','] + dec_str(n)
}

/// The rendered half-diff as a sequence of lines.
pub open spec fn render_lines_from(
    files: Seq<String>,
    hs: Seq<(usize, usize, Vec<String>)>,
    hm: Seq<char>,
    qm: Seq<char>,
    i: int,
    prev: int,
) -> Seq<Seq<char>>
    decreases hs.len() - i,
{
    if i < 0 || i >= hs.len() {
        Seq::empty()
    } else {
        let h = hs[i];
        let head: Seq<Seq<char>> = if h.0 != prev {
            seq![header_line_bare(hm, files[h.0 as int]@)]
        } else {
            Seq::empty()
        };
        head + seq![hunk_line_bare(qm, h.1 as int, h.2@.len() as int)] + views_of(h.2@)
            + render_lines_from(files, hs, hm, qm, i + 1, h.0 as int)
    }
}

/// A body text read from its first line.
proof fn lemma_body_text_first(lines: Seq<Seq<char>>)
    requires
        lines.len() > 0,
    ensures
        body_text(lines) == lines[0] + seq!['\n'] + body_text(lines.skip(1)),
    decreases lines.len(),
{
    if lines.len() == 1 {
        assert(lines.drop_last() =~= Seq::<Seq<char>>::empty());
        assert(lines.skip(1) =~= Seq::<Seq<char>>::empty());
        assert(body_text(lines) =~= lines[0] + seq!['\n'] + body_text(lines.skip(1)));
    } else {
        let d = lines.drop_last();
        lemma_body_text_first(d);
        assert(d[0] == lines[0]);
        assert(lines.skip(1).drop_last() =~= d.skip(1));
        assert(lines.skip(1).last() == lines.last());
        assert(body_text(lines.skip(1)) == body_text(d.skip(1)) + lines.last() + seq!['\n']);
        assert(body_text(lines) == body_text(d) + lines.last() + seq!['\n']);
        assert(body_text(lines) =~= lines[0] + seq!['\n'] + body_text(lines.skip(1)));
    }
}

/// Splitting a rendered body peels off exactly its lines.
proof fn lemma_split_body(lines: Seq<Seq<char>>, rest: Seq<char>)
    requires
        forall|k: int| 0 <= k < lines.len() ==> clean_line(#[trigger] lines[k]),
    ensures
        crate::text::split_lines_s(body_text(lines) + rest) == lines + crate::text::split_lines_s(
            rest,
        ),
    decreases lines.len(),
{
    if lines.len() == 0 {
        assert(body_text(lines) + rest =~= rest);
        assert(lines + crate::text::split_lines_s(rest) =~= crate::text::split_lines_s(rest));
    } else {
        lemma_body_text_first(lines);
        let tail = lines.skip(1);
        assert(forall|k: int| 0 <= k < tail.len() ==> tail[k] == lines[k + 1]);
        lemma_split_body(tail, rest);
        assert(body_text(lines) + rest =~= lines[0] + seq!['\n'] + (body_text(tail) + rest));
        crate::text::lemma_split_line(lines[0], body_text(tail) + rest);
        assert(crate::text::chop_cr(lines[0]) == lines[0]);
        assert(crate::text::split_lines_s(body_text(lines) + rest) =~= lines
            + crate::text::split_lines_s(rest));
    }
}

/// Splitting the rendered half-diff gives exactly its rendered lines.
#[verifier::rlimit(100)]
#[verifier::spinoff_prover]
proof fn lemma_split_render(
    files: Seq<String>,
    hs: Seq<(usize, usize, Vec<String>)>,
    hm: Seq<char>,
    qm: Seq<char>,
    i: int,
    prev: int,
)
    requires
        no_nl(hm),
        no_nl(qm),
        qm.len() > 0,
        forall|k: int| 0 <= k < files.len() ==> clean_name(#[trigger] files[k]@),
        forall|a: int, k: int|
            0 <= a < hs.len() && 0 <= k < hs[a].2@.len() ==> clean_line(#[trigger] hs[a].2@[k]@),
        forall|a: int| 0 <= a < hs.len() ==> (#[trigger] hs[a]).0 < files.len(),
        forall|a: int| 0 <= a < hs.len() ==> (#[trigger] hs[a]).1 < usize::MAX,
        0 <= i,
    ensures
        crate::text::split_lines_s(render_from(files, hs, hm, qm, i, prev)) == render_lines_from(
            files,
            hs,
            hm,
            qm,
            i,
            prev,
        ),
    decreases hs.len() - i,
{
    if i >= hs.len() {
        assert(crate::text::split_lines_s(render_from(files, hs, hm, qm, i, prev))
            =~= Seq::<Seq<char>>::empty());
        assert(render_lines_from(files, hs, hm, qm, i, prev) =~= Seq::<Seq<char>>::empty());
    } else {
        let h = hs[i];
        let name = files[h.0 as int]@;
        let rest = render_from(files, hs, hm, qm, i + 1, h.0 as int);
        let rest_lines = render_lines_from(files, hs, hm, qm, i + 1, h.0 as int);
        lemma_split_render(files, hs, hm, qm, i + 1, h.0 as int);
        crate::text::lemma_dec_str_digits(h.1 as int + 1);
        crate::text::lemma_dec_str_digits(h.2@.len() as int);
        let hb = hunk_line_bare(qm, h.1 as int, h.2@.len() as int);
        assert(no_nl(hb)) by {
            assert(forall|k: int|
                0 <= k < dec_str(h.1 as int + 1).len() ==> crate::text::is_digit(
                    #[trigger] dec_str(h.1 as int + 1)[k],
                ));
            assert(forall|k: int|
                0 <= k < dec_str(h.2@.len() as int).len() ==> crate::text::is_digit(
                    #[trigger] dec_str(h.2@.len() as int)[k],
                ));
            assert('\n' as u32 == 10);
        }
        assert(clean_line(hb)) by {
            assert(hb[hb.len() - 1] == dec_str(h.2@.len() as int).last());
            assert(crate::text::is_digit(hb[hb.len() - 1]));
            assert('\r' as u32 == 13);
        }
        let body = body_text(views_of(h.2@));
        assert(forall|k: int|
            0 <= k < views_of(h.2@).len() ==> clean_line(#[trigger] views_of(h.2@)[k]));
        assert(hunk_line_text(qm, h.1 as int, h.2@.len() as int) =~= hb + seq!['\n']);
        if h.0 as int != prev {
            let hd = header_line_bare(hm, name);
            assert(no_nl(hd));
            assert(clean_line(hd)) by {
                assert(hd[hd.len() - 1] == name[name.len() - 1]);
            }
            assert(header_line_text(hm, name) =~= hd + seq!['\n']);
            assert(render_from(files, hs, hm, qm, i, prev) =~= hd + seq!['\n'] + (hb + seq!['\n']
                + (body + rest)));
            crate::text::lemma_split_line(hd, hb + seq!['\n'] + (body + rest));
            crate::text::lemma_split_line(hb, body + rest);
            lemma_split_body(views_of(h.2@), rest);
            assert(crate::text::split_lines_s(render_from(files, hs, hm, qm, i, prev))
                =~= render_lines_from(files, hs, hm, qm, i, prev));
        } else {
            assert(render_from(files, hs, hm, qm, i, prev) =~= hb + seq!['\n'] + (body + rest));
            crate::text::lemma_split_line(hb, body + rest);
            lemma_split_body(views_of(h.2@), rest);
            assert(crate::text::split_lines_s(render_from(files, hs, hm, qm, i, prev))
                =~= render_lines_from(files, hs, hm, qm, i, prev));
        }
    }
}

/// The state with its open hunk closed and its buffer drained.
pub open spec fn cleared(st: AccState) -> AccState {
    AccState { cur_hunk: None, buf: Seq::empty(), ..st }
}

/// The coordinate text the renderer writes for hunk `h`.
pub open spec fn coord_of(h: (usize, usize, Vec<String>)) -> Seq<char> {
    dec_str(h.1 as int + 1) + seq![','] + dec_str(h.2@.len() as int)
}

/// Trimming one leading space off a text with firm ends changes nothing else.
proof fn lemma_trim_padded(t: Seq<char>)
    requires
        t.len() > 0,
        !crate::text::is_ws(t[0]),
        !crate::text::is_ws(t[t.len() - 1]),
    ensures
        trim_s(seq![' '] + t) == t,
{
    let s = seq![' '] + t;
    assert(crate::text::is_ws(s[0]));
    assert(s[1] == t[0]);
    crate::text::lemma_trim_start(s, 1);
    assert(s.skip(1) =~= t);
    crate::text::lemma_trim_end(t, t.len() as int);
    assert(t.take(t.len() as int) =~= t);
}

/// The strict key order of well-formed hunks: no two share `(file_id, from)`.
proof fn lemma_hunk_key_unique(hs: Seq<(usize, usize, Vec<String>)>, i: int)
    requires
        forall|a: int, b: int|
            0 <= a < b < hs.len() ==> ((#[trigger] hs[a]).0 < (#[trigger] hs[b]).0 || (hs[a].0
                == hs[b].0 && hs[a].1 < hs[b].1)),
        0 <= i < hs.len(),
    ensures
        lookup_hunk(hs, hs[i].0 as int, hs[i].1 as int) == Some(views_of(hs[i].2@)),
{
    assert forall|k: int|
        0 <= k < i implies !((#[trigger] hs[k]).0 == hs[i].0 as int && hs[k].1 == hs[i].1
        as int) by {
        assert(hs[k].0 < hs[i].0 || (hs[k].0 == hs[i].0 && hs[k].1 < hs[i].1));
    }
    lemma_lookup_hunk_at(hs, hs[i].0 as int, hs[i].1 as int, i);
}

/// Dumping the rendered, unedited hunk `i` emits nothing and only clears.
proof fn lemma_dump_unedited(hs: Seq<(usize, usize, Vec<String>)>, st: AccState, i: int)
    requires
        forall|a: int, b: int|
            0 <= a < b < hs.len() ==> ((#[trigger] hs[a]).0 < (#[trigger] hs[b]).0 || (hs[a].0
                == hs[b].0 && hs[a].1 < hs[b].1)),
        forall|a: int| 0 <= a < hs.len() ==> (#[trigger] hs[a]).1 < usize::MAX,
        0 <= i < hs.len(),
        st.cur_id == hs[i].0 as int,
        st.cur_hunk == Some(coord_of(hs[i])),
        st.buf == views_of(hs[i].2@),
    ensures
        spec_dump_hunk(hs, st) == Ok::<AccState, GeError>(cleared(st)),
{
    let h = hs[i];
    let num = dec_str(h.1 as int + 1);
    let coord = coord_of(h);
    crate::text::lemma_dec_str_digits(h.1 as int + 1);
    crate::text::lemma_dec_str_digits(h.2@.len() as int);
    assert(coord[num.len() as int] == ',');
    assert forall|k: int| 0 <= k < num.len() implies coord[k] != ',' by {
        assert(coord[k] == num[k]);
        assert(crate::text::is_digit(num[k]));
        assert(',' as u32 == 44);
    }
    crate::text::lemma_find_idx_of_first(coord, ',', num.len() as int);
    assert(coord.take(num.len() as int) =~= num);
    crate::text::lemma_dec_val_dec_str(h.1 as int + 1);
    assert(coord_pos(coord) == Some(h.1 as int));
    lemma_hunk_key_unique(hs, i);
    let orig = views_of(h.2@);
    assert(!edited_differs(st.buf, orig)) by {
        assert(forall|k: int| #[trigger] line_at(st.buf, k) == line_at(orig, k));
    }
    assert(spec_dump_hunk(hs, st) == Ok::<AccState, GeError>(
        AccState { cur_hunk: None, buf: Seq::empty(), ..st },
    ));
}

/// Feeding body lines only buffers them.
proof fn lemma_parse_body(
    files: Seq<String>,
    hs: Seq<(usize, usize, Vec<String>)>,
    hm: Seq<char>,
    qm: Seq<char>,
    st: AccState,
    bl: Seq<Seq<char>>,
    rest: Seq<Seq<char>>,
)
    requires
        st.cur_id >= 0,
        st.cur_hunk is Some,
        forall|k: int|
            0 <= k < bl.len() ==> !has_prefix(#[trigger] bl[k], hm) && !has_prefix(bl[k], qm),
    ensures
        spec_run(files, hs, hm, qm, st, bl + rest) == spec_run(
            files,
            hs,
            hm,
            qm,
            AccState { buf: st.buf + bl, ..st },
            rest,
        ),
    decreases bl.len(),
{
    if bl.len() == 0 {
        assert(bl + rest =~= rest);
        assert(st.buf + bl =~= st.buf);
        assert(AccState { buf: st.buf + bl, ..st } == st);
    } else {
        let l0 = bl[0];
        let all = bl + rest;
        assert(all[0] == l0);
        assert(all.len() > 0);
        let st1 = AccState { buf: st.buf.push(l0), ..st };
        assert(spec_step(files, hs, hm, qm, st, l0) == Ok::<(AccState, Seq<char>), GeError>(
            (st1, Seq::empty()),
        ));
        let tail = bl.skip(1);
        assert(forall|k: int| 0 <= k < tail.len() ==> tail[k] == bl[k + 1]);
        assert(all.skip(1) =~= tail + rest);
        lemma_parse_body(files, hs, hm, qm, st1, tail, rest);
        assert(st1.buf + tail =~= st.buf + bl);
        assert(AccState { buf: st1.buf + tail, ..st1 } == AccState { buf: st.buf + bl, ..st });
        let inner = spec_run(files, hs, hm, qm, AccState { buf: st.buf + bl, ..st }, rest);
        if inner is Ok {
            assert(Seq::<char>::empty() + inner->Ok_0 =~= inner->Ok_0);
        }
    }
}

/// Running the machine over the rendered lines from hunk `i` on: everything
/// compares equal, nothing is emitted.
#[verifier::rlimit(90)]
proof fn lemma_parse_render(
    files: Seq<String>,
    hs: Seq<(usize, usize, Vec<String>)>,
    hm: Seq<char>,
    qm: Seq<char>,
    i: int,
    st: AccState,
)
    requires
        forall|a: int, b: int| 0 <= a < b < files.len() ==> lex_lt(files[a]@, files[b]@),
        forall|a: int|
            0 <= a < hs.len() ==> (#[trigger] hs[a]).0 < files.len() && hs[a].1 < usize::MAX,
        forall|a: int, b: int|
            0 <= a < b < hs.len() ==> ((#[trigger] hs[a]).0 < (#[trigger] hs[b]).0 || (hs[a].0
                == hs[b].0 && hs[a].1 < hs[b].1)),
        hm.len() > 0,
        qm.len() > 0,
        hm[0] != qm[0],
        forall|a: int, k: int|
            0 <= a < hs.len() && 0 <= k < hs[a].2@.len() ==> !has_prefix(
                #[trigger] hs[a].2@[k]@,
                hm,
            ) && !has_prefix(hs[a].2@[k]@, qm),
        forall|k: int| 0 <= k < files.len() ==> clean_name(#[trigger] files[k]@),
        0 <= i <= hs.len(),
        st.cur_id == (if i == 0 {
            -1
        } else {
            hs[i - 1].0 as int
        }),
        spec_dump_hunk(hs, st) == Ok::<AccState, GeError>(cleared(st)),
        !st.file_nonempty,
    ensures
        spec_run(
            files,
            hs,
            hm,
            qm,
            st,
            render_lines_from(
                files,
                hs,
                hm,
                qm,
                i,
                (if i == 0 {
                    -1
                } else {
                    hs[i - 1].0 as int
                }),
            ),
        ) == Ok::<Seq<char>, GeError>(Seq::<char>::empty()),
    decreases hs.len() - i,
{
    let prev: int = if i == 0 {
        -1
    } else {
        hs[i - 1].0 as int
    };
    let lines = render_lines_from(files, hs, hm, qm, i, prev);
    if i == hs.len() {
        assert(lines =~= Seq::<Seq<char>>::empty());
        assert(spec_flush_file(cleared(st)).1 =~= Seq::<char>::empty());
    } else {
        let h = hs[i];
        let name = files[h.0 as int]@;
        let hb = hunk_line_bare(qm, h.1 as int, h.2@.len() as int);
        let body = views_of(h.2@);
        let rest_lines = render_lines_from(files, hs, hm, qm, i + 1, h.0 as int);
        crate::text::lemma_dec_str_digits(h.1 as int + 1);
        crate::text::lemma_dec_str_digits(h.2@.len() as int);
        // the hunk line starts with the hunk marker and not the header marker
        assert(has_prefix(hb, qm)) by {
            assert(hb.take(qm.len() as int) =~= qm);
        }
        assert(!has_prefix(hb, hm)) by {
            if has_prefix(hb, hm) {
                assert(hb.take(hm.len() as int)[0] == hm[0]);
                assert(hb[0] == qm[0]);
            }
        }
        // the coordinate text survives trimming
        let coordtext = dec_str(h.1 as int + 1) + seq![','] + dec_str(h.2@.len() as int);
        assert(trim_s(hb.skip(qm.len() as int)) == coord_of(h)) by {
            assert(hb.skip(qm.len() as int) =~= seq![' '] + coordtext);
            assert(coordtext[0] == dec_str(h.1 as int + 1)[0]);
            assert(crate::text::is_digit(coordtext[0]));
            assert(coordtext[coordtext.len() - 1] == dec_str(h.2@.len() as int).last());
            assert(crate::text::is_digit(coordtext[coordtext.len() - 1]));
            lemma_trim_padded(coordtext);
            assert(coordtext == coord_of(h));
        }
        // the state after the hunk line
        let st_open = |base: AccState| AccState {
            cur_hunk: Some(coord_of(h)),
            buf: Seq::<Seq<char>>::empty(),
            ..base
        };
        if h.0 as int != prev {
            let hd = header_line_bare(hm, name);
            assert(lines =~= seq![hd, hb] + body + rest_lines);
            assert(has_prefix(hd, hm)) by {
                assert(hd.take(hm.len() as int) =~= hm);
            }
            // step one: the header line
            assert(trim_s(hd.skip(hm.len() as int)) == name) by {
                assert(hd.skip(hm.len() as int) =~= seq![' '] + name);
                lemma_trim_padded(name);
            }
            assert(lookup_file(files, name) == Some(h.0 as int)) by {
                assert forall|k: int| 0 <= k < h.0 implies files[k]@ != name by {
                    assert(lex_lt(files[k]@, name));
                    if files[k]@ == name {
                        crate::text::lemma_lex_lt_irrefl(name);
                    }
                }
                lemma_lookup_file_at(files, name, h.0 as int);
            }
            let st1 = AccState {
                cur_id: h.0 as int,
                cur_hunk: None,
                buf: Seq::empty(),
                pos_diff: 0,
                file_text: patch_header_text(name),
                file_nonempty: false,
            };
            assert(spec_step(files, hs, hm, qm, st, hd) == Ok::<(AccState, Seq<char>), GeError>(
                (st1, Seq::empty()),
            ));
            // step two: the hunk line
            assert(spec_dump_hunk(hs, st1) == Ok::<AccState, GeError>(st1));
            let st2 = st_open(st1);
            assert(spec_step(files, hs, hm, qm, st1, hb) == Ok::<(AccState, Seq<char>), GeError>(
                (st2, Seq::empty()),
            ));
            // the body lines fill the buffer
            assert(forall|k: int|
                0 <= k < body.len() ==> !has_prefix(#[trigger] body[k], hm) && !has_prefix(
                    body[k],
                    qm,
                ));
            lemma_parse_body(files, hs, hm, qm, st2, body, rest_lines);
            let st3 = AccState { buf: st2.buf + body, ..st2 };
            assert(st3.buf =~= body);
            // the pending hunk is the rendered one, so the tail parses clean
            lemma_dump_unedited(hs, AccState { buf: body, ..st3 }, i);
            assert(AccState { buf: body, ..st3 } == st3);
            lemma_parse_render(files, hs, hm, qm, i + 1, st3);
            assert(spec_run(files, hs, hm, qm, st3, rest_lines) == Ok::<Seq<char>, GeError>(
                Seq::<char>::empty(),
            ));
            // compose the three steps
            assert(spec_run(files, hs, hm, qm, st2, body + rest_lines) == Ok::<
                Seq<char>,
                GeError,
            >(Seq::<char>::empty()));
            assert(lines[0] == hd);
            assert(lines.skip(1) =~= seq![hb] + (body + rest_lines));
            assert(lines.skip(1)[0] == hb);
            assert(lines.skip(1).skip(1) =~= body + rest_lines);
            assert(spec_run(files, hs, hm, qm, st1, lines.skip(1)) == Ok::<Seq<char>, GeError>(
                Seq::<char>::empty() + Seq::<char>::empty(),
            ));
            assert(spec_run(files, hs, hm, qm, st, lines) == Ok::<Seq<char>, GeError>(
                Seq::<char>::empty() + (Seq::<char>::empty() + Seq::<char>::empty()),
            ));
            assert(Seq::<char>::empty() + (Seq::<char>::empty() + Seq::<char>::empty())
                =~= Seq::<char>::empty());
        } else {
            assert(i > 0);
            assert(lines =~= seq![hb] + body + rest_lines);
            // step one: the hunk line, from the carried state
            let st1 = cleared(st);
            assert(st1.cur_id == h.0 as int);
            assert(st1.cur_id >= 0);
            let st2 = st_open(st1);
            assert(spec_step(files, hs, hm, qm, st, hb) == Ok::<(AccState, Seq<char>), GeError>(
                (st2, Seq::empty()),
            ));
            assert(forall|k: int|
                0 <= k < body.len() ==> !has_prefix(#[trigger] body[k], hm) && !has_prefix(
                    body[k],
                    qm,
                ));
            lemma_parse_body(files, hs, hm, qm, st2, body, rest_lines);
            let st3 = AccState { buf: st2.buf + body, ..st2 };
            assert(st3.buf =~= body);
            lemma_dump_unedited(hs, AccState { buf: body, ..st3 }, i);
            assert(AccState { buf: body, ..st3 } == st3);
            lemma_parse_render(files, hs, hm, qm, i + 1, st3);
            assert(spec_run(files, hs, hm, qm, st2, body + rest_lines) == Ok::<
                Seq<char>,
                GeError,
            >(Seq::<char>::empty()));
            assert(lines[0] == hb);
            assert(lines.skip(1) =~= body + rest_lines);
            assert(spec_run(files, hs, hm, qm, st, lines) == Ok::<Seq<char>, GeError>(
                Seq::<char>::empty() + Seq::<char>::empty(),
            ));
            assert(Seq::<char>::empty() + Seq::<char>::empty() =~= Seq::<char>::empty());
        }
    }
}

/// What the round trip asks of a builder: collision-free markers that cannot
/// shadow one another, and names and body lines that survive line splitting
/// and trimming unchanged. A builder made by `from_hunks` from well-formed
/// hunks with such names and lines, under the default markers, satisfies it.
pub open spec fn round_trip_ready(b: PatchBuilder) -> bool {
    b.wf() && b.header_marker@.len() > 0 && b.hunk_marker@.len() > 0 && b.header_marker@[0]
        != b.hunk_marker@[0] && no_nl(b.header_marker@) && no_nl(b.hunk_marker@)
        && !marker_collides(b.hunks@, b.header_marker@) && !marker_collides(
        b.hunks@,
        b.hunk_marker@,
    ) && (forall|k: int| 0 <= k < b.files@.len() ==> clean_name(#[trigger] b.files@[k]@)) && (
    forall|a: int, k: int|
        0 <= a < b.hunks@.len() && 0 <= k < b.hunks@[a].2@.len() ==> clean_line(
            #[trigger] b.hunks@[a].2@[k]@,
        ))
}

/// Round-trip identity: when the user makes no edits, parsing the rendered
/// half-diff yields the empty patch.
pub proof fn lemma_round_trip(b: PatchBuilder)
    requires
        round_trip_ready(b),
    ensures
        parse_result(b, render_halfdiff(b)) == Ok::<Seq<char>, GeError>(Seq::<char>::empty()),
{
    let hm = b.header_marker@;
    let qm = b.hunk_marker@;
    assert forall|a: int, k: int|
        0 <= a < b.hunks@.len() && 0 <= k < b.hunks@[a].2@.len() implies !has_prefix(
        #[trigger] b.hunks@[a].2@[k]@,
        hm,
    ) && !has_prefix(b.hunks@[a].2@[k]@, qm) by {
        if has_prefix(b.hunks@[a].2@[k]@, hm) {
            assert(marker_collides(b.hunks@, hm));
        }
        if has_prefix(b.hunks@[a].2@[k]@, qm) {
            assert(marker_collides(b.hunks@, qm));
        }
    }
    lemma_split_render(b.files@, b.hunks@, hm, qm, 0, -1);
    let st0 = init_state();
    assert(spec_dump_hunk(b.hunks@, st0) == Ok::<AccState, GeError>(cleared(st0))) by {
        assert(cleared(st0) == st0);
    }
    lemma_parse_render(b.files@, b.hunks@, hm, qm, 0, st0);
}

/// An extended marker keeps its first character, its length only grows, and
/// it stays free of newlines when its base was.
proof fn lemma_extended_marker_shape(base: Seq<char>, c: char, k: int)
    requires
        base.len() > 0,
        c != '\n',
        no_nl(base),
    ensures
        extended_marker(base, c, k).len() >= base.len(),
        extended_marker(base, c, k)[0] == base[0],
        no_nl(extended_marker(base, c, k)),
    decreases k,
{
    if k > 0 {
        lemma_extended_marker_shape(base, c, k - 1);
        let prev = extended_marker(base, c, k - 1);
        assert(forall|i: int|
            0 <= i < prev.push(c).len() ==> prev.push(c)[i] == (if i < prev.len() {
                prev[i]
            } else {
                c
            }));
    }
}

/// A builder that `from_hunks` made under the default markers is ready for
/// the round trip whenever its file names and body lines are clean.
pub proof fn lemma_default_markers_round_trip_ready(b: PatchBuilder)
    requires
        b.wf(),
        b.header_marker@ == resolved_marker(b.hunks@, "+++"@, '+', true),
        b.hunk_marker@ == resolved_marker(b.hunks@, "@@"@, '@', true),
        !marker_collides(b.hunks@, b.header_marker@),
        !marker_collides(b.hunks@, b.hunk_marker@),
        forall|k: int| 0 <= k < b.files@.len() ==> clean_name(#[trigger] b.files@[k]@),
        forall|a: int, k: int|
            0 <= a < b.hunks@.len() && 0 <= k < b.hunks@[a].2@.len() ==> clean_line(
                #[trigger] b.hunks@[a].2@[k]@,
            ),
    ensures
        round_trip_ready(b),
{
    reveal_strlit("+++");
    reveal_strlit("@@");
    assert("+++"@.len() == 3 && "+++"@[0] == '+');
    assert("@@"@.len() == 2 && "@@"@[0] == '@');
    assert(no_nl("+++"@));
    assert(no_nl("@@"@));
    lemma_extended_marker_shape("+++"@, '+', first_clear(b.hunks@, "+++"@, '+', 0));
    lemma_extended_marker_shape("@@"@, '@', first_clear(b.hunks@, "@@"@, '@', 0));
}

} // verus!
