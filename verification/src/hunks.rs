use vstd::prelude::*;

use crate::error::GeError;
use crate::git::{
    extended_hit, head_hits, kept_hits, merged_hits, padded_hit, views_of, GrepHit, GrepResult,
};
use crate::text::lex_lt;

verus! {

/// How hits are to be extended before they become hunks.
#[derive(Debug)]
pub struct HunkOptions {
    pub context: Option<usize>,
    pub before: Option<usize>,
    pub after: Option<usize>,
    pub head: Option<usize>,
    pub with: Option<String>,
    pub without: Option<String>,
    pub to: Option<String>,
}

/// Hits frozen together with the verbatim source lines they span.
#[derive(Debug)]
pub struct Hunks {
    pub files: Vec<String>,
    pub hunks: Vec<(usize, usize, Vec<String>)>,
}

impl Hunks {
    /// Files ascending; triples sorted by `(file_id, from)`, and within one
    /// file strictly disjoint; every span fits the machine.
    pub open spec fn wf(self) -> bool {
        (forall|i: int, j: int|
            0 <= i < j < self.files@.len() ==> lex_lt(self.files@[i]@, self.files@[j]@))
            && (forall|i: int|
            0 <= i < self.hunks@.len() ==> (#[trigger] self.hunks@[i]).0 < self.files@.len()
                && self.hunks@[i].1 + self.hunks@[i].2@.len() <= usize::MAX && self.hunks@[i].1
                < usize::MAX) && (forall|i: int, j: int|
            0 <= i < j < self.hunks@.len() ==> ((#[trigger] self.hunks@[i]).0
                < (#[trigger] self.hunks@[j]).0 || (self.hunks@[i].0 == self.hunks@[j].0
                && self.hunks@[i].1 + self.hunks@[i].2@.len() < self.hunks@[j].1)))
    }
}

/// No hit of `g` reaches a later hit of the same file.
pub open spec fn hits_disjoint(g: GrepResult) -> bool {
    forall|i: int, j: int|
        0 <= i < j < g.hits@.len() && g.hits@[i].file_id == g.hits@[j].file_id
            ==> g.hits@[i].from + g.hits@[i].n_lines < g.hits@[j].from
}

/// The `n` lines of `ls` starting at `from`, fewer when the file ends early.
pub open spec fn clipped_lines(ls: Seq<Seq<char>>, from: int, n: int) -> Seq<Seq<char>> {
    if from >= ls.len() {
        Seq::empty()
    } else if from + n <= ls.len() {
        ls.subrange(from, from + n)
    } else {
        ls.subrange(from, ls.len() as int)
    }
}

/// Every hit extended toward its anchor in `to`, in order.
pub open spec fn extended_all(
    hits: Seq<GrepHit>,
    files: Seq<String>,
    to_files: Seq<String>,
    to_hits: Seq<GrepHit>,
) -> Seq<GrepHit>
    decreases hits.len(),
{
    if hits.len() == 0 {
        Seq::empty()
    } else {
        extended_all(hits.drop_last(), files, to_files, to_hits).push(
            extended_hit(files[hits.last().file_id as int]@, hits.last(), to_files, to_hits),
        )
    }
}

/// Every hit padded by `up` and `down`, in order.
pub open spec fn padded_all(hits: Seq<GrepHit>, up: usize, down: usize) -> Seq<GrepHit>
    decreases hits.len(),
{
    if hits.len() == 0 {
        Seq::empty()
    } else {
        padded_all(hits.drop_last(), up, down).push(padded_hit(hits.last(), up, down))
    }
}

/// The symmetric or asymmetric padding the options call for, if any.
pub open spec fn pad_params(o: HunkOptions) -> Option<(usize, usize)> {
    match o.context {
        Some(c) => Some((c, c)),
        None => {
            let b = match o.before {
                Some(b) => b,
                None => 0,
            };
            let a = match o.after {
                Some(a) => a,
                None => 0,
            };
            if a != 0 || b != 0 {
                Some((b, a))
            } else {
                None
            }
        },
    }
}

/// The hits after the filter and extension steps, before padding and merging.
pub open spec fn pipeline_extended(
    files: Seq<String>,
    hits: Seq<GrepHit>,
    with: Option<Seq<String>>,
    without: Option<Seq<String>>,
    to: Option<(Seq<String>, Seq<GrepHit>)>,
    head: Option<usize>,
) -> Seq<GrepHit> {
    let h1 = match with {
        Some(w) => kept_hits(hits, files, w, false),
        None => hits,
    };
    let h2 = match without {
        Some(w) => kept_hits(h1, files, w, true),
        None => h1,
    };
    let h3 = match head {
        Some(n) => head_hits(h2, n),
        None => h2,
    };
    match to {
        Some(t) => extended_all(h3, files, t.0, t.1),
        None => h3,
    }
}

/// The whole extension pipeline: filters, head collection, structural
/// extension, padding, overlap merging, in that fixed order.
pub open spec fn pipeline_hits(
    files: Seq<String>,
    hits: Seq<GrepHit>,
    with: Option<Seq<String>>,
    without: Option<Seq<String>>,
    to: Option<(Seq<String>, Seq<GrepHit>)>,
    opts: HunkOptions,
) -> Seq<GrepHit> {
    let h4 = pipeline_extended(files, hits, with, without, to, opts.head);
    let h5 = match pad_params(opts) {
        Some(p) => padded_all(h4, p.0, p.1),
        None => h4,
    };
    merged_hits(h5)
}

proof fn lemma_extended_all(
    hits: Seq<GrepHit>,
    files: Seq<String>,
    to_files: Seq<String>,
    to_hits: Seq<GrepHit>,
)
    ensures
        extended_all(hits, files, to_files, to_hits).len() == hits.len(),
        forall|i: int|
            0 <= i < hits.len() ==> extended_all(hits, files, to_files, to_hits)[i]
                == extended_hit(
                files[(#[trigger] hits[i]).file_id as int]@,
                hits[i],
                to_files,
                to_hits,
            ),
    decreases hits.len(),
{
    if hits.len() > 0 {
        lemma_extended_all(hits.drop_last(), files, to_files, to_hits);
        assert(forall|i: int| 0 <= i < hits.len() - 1 ==> hits.drop_last()[i] == hits[i]);
    }
}

proof fn lemma_padded_all(hits: Seq<GrepHit>, up: usize, down: usize)
    ensures
        padded_all(hits, up, down).len() == hits.len(),
        forall|i: int|
            0 <= i < hits.len() ==> padded_all(hits, up, down)[i] == padded_hit(
                #[trigger] hits[i],
                up,
                down,
            ),
    decreases hits.len(),
{
    if hits.len() > 0 {
        lemma_padded_all(hits.drop_last(), up, down);
        assert(forall|i: int| 0 <= i < hits.len() - 1 ==> hits.drop_last()[i] == hits[i]);
    }
}

/// The secondary file tables as the spec pipeline takes them.
pub open spec fn files_of(o: Option<&GrepResult>) -> Option<Seq<String>> {
    match o {
        Some(g) => Some(g.files@),
        None => None,
    }
}

/// A whole secondary result as the spec pipeline takes it.
pub open spec fn result_of(o: Option<&GrepResult>) -> Option<(Seq<String>, Seq<GrepHit>)> {
    match o {
        Some(g) => Some((g.files@, g.hits@)),
        None => None,
    }
}

/// The bound the machine forces on the padding step: every hit it sees must
/// still fit `usize` after extension.
pub open spec fn pad_fits(
    files: Seq<String>,
    hits: Seq<GrepHit>,
    with: Option<Seq<String>>,
    without: Option<Seq<String>>,
    to: Option<(Seq<String>, Seq<GrepHit>)>,
    opts: HunkOptions,
) -> bool {
    match pad_params(opts) {
        Some(p) => {
            let h4 = pipeline_extended(files, hits, with, without, to, opts.head);
            forall|i: int|
                0 <= i < h4.len() ==> (#[trigger] h4[i]).from + h4[i].n_lines + p.1 <= usize::MAX
        },
        None => true,
    }
}

impl Hunks {
    /// Run the extension pipeline over already-collected search results.
    /// The secondary results stand for the `--with`, `--without` and `--to`
    /// searches; the caller passes those it ran.
    pub fn collect_matches(
        matches: GrepResult,
        with: Option<&GrepResult>,
        without: Option<&GrepResult>,
        to: Option<&GrepResult>,
        hunk_opts: &HunkOptions,
    ) -> (r: Result<GrepResult, GeError>)
        requires
            matches.wf(),
            match to {
                Some(t) => t.wf(),
                None => true,
            },
            pad_fits(
                matches.files@,
                matches.hits@,
                files_of(with),
                files_of(without),
                result_of(to),
                *hunk_opts,
            ),
        ensures
            match r {
                Ok(out) => out.files == matches.files && out.hits@ == pipeline_hits(
                    matches.files@,
                    matches.hits@,
                    files_of(with),
                    files_of(without),
                    result_of(to),
                    *hunk_opts,
                ) && out.wf() && hits_disjoint(out),
                Err(_) => false,
            },
    {
        let ghost gwith = files_of(with);
        let ghost gwithout = files_of(without);
        let ghost gto = result_of(to);
        let mut m = matches;
        if let Some(w) = with {
            let _ = m.filter_files(w, false);
        }
        if let Some(w) = without {
            let _ = m.filter_files(w, true);
        }
        if let Some(n) = hunk_opts.head {
            let _ = m.collect_head(n);
        }
        let ghost h3 = m.hits@;
        if let Some(t) = to {
            proof {
                lemma_extended_all(h3, matches.files@, t.files@, t.hits@);
            }
            let _ = m.extend_to_another(t);
            proof {
                let ea = extended_all(h3, matches.files@, t.files@, t.hits@);
                assert forall|i: int| 0 <= i < m.hits@.len() implies m.hits@[i] == ea[i] by {
                    assert(m.hits@[i] == extended_hit(
                        matches.files@[(h3[i]).file_id as int]@,
                        h3[i],
                        t.files@,
                        t.hits@,
                    ));
                    assert(ea[i] == extended_hit(
                        matches.files@[(h3[i]).file_id as int]@,
                        h3[i],
                        t.files@,
                        t.hits@,
                    ));
                }
                assert(m.hits@ =~= ea);
            }
        }
        let ghost h4 = pipeline_extended(
            matches.files@,
            matches.hits@,
            gwith,
            gwithout,
            gto,
            hunk_opts.head,
        );
        proof {
            assert(m.hits@ =~= h4);
        }
        let pad = match hunk_opts.context {
            Some(c) => Some((c, c)),
            None => {
                let b = match hunk_opts.before {
                    Some(b) => b,
                    None => 0,
                };
                let a = match hunk_opts.after {
                    Some(a) => a,
                    None => 0,
                };
                if a != 0 || b != 0 {
                    Some((b, a))
                } else {
                    None
                }
            },
        };
        proof {
            assert(pad == pad_params(*hunk_opts));
        }
        if let Some((up, down)) = pad {
            proof {
                lemma_padded_all(m.hits@, up, down);
            }
            let _ = m.extend_by_lines(up, down);
            proof {
                let pa = padded_all(h4, up, down);
                assert forall|i: int| 0 <= i < m.hits@.len() implies m.hits@[i] == pa[i] by {
                    assert(m.hits@[i] == padded_hit(h4[i], up, down));
                    assert(pa[i] == padded_hit(h4[i], up, down));
                }
                assert(m.hits@ =~= pa);
            }
        }
        let ghost h5 = match pad_params(*hunk_opts) {
            Some(p) => padded_all(h4, p.0, p.1),
            None => h4,
        };
        proof {
            assert(m.hits@ =~= h5);
        }
        let _ = m.filter_overlaps();
        proof {
            crate::git::lemma_merged_hits_disjoint(h5, matches.files@.len() as int);
            assert(m.hits@ =~= pipeline_hits(
                matches.files@,
                matches.hits@,
                gwith,
                gwithout,
                gto,
                *hunk_opts,
            ));
        }
        Ok(m)
    }
}

impl Hunks {
    /// The `n_lines` lines of `lines` starting at `from`; fewer when the
    /// file ends early, none when `from` lies past its end.
    pub fn collect_lines(lines: &Vec<String>, from: usize, n_lines: usize) -> (r: Vec<String>)
        requires
            from + n_lines <= usize::MAX,
        ensures
            views_of(r@) == clipped_lines(views_of(lines@), from as int, n_lines as int),
            r@.len() <= n_lines,
    {
        let mut acc: Vec<String> = Vec::new();
        let total = lines.len();
        let mut i: usize = 0;
        while i < n_lines && from + i < total
            invariant
                0 <= i <= n_lines,
                from + n_lines <= usize::MAX,
                total == lines@.len(),
                from + i <= total || i == 0,
                i > 0 ==> from + i <= total,
                acc@.len() == i as int,
                forall|k: int| 0 <= k < i ==> acc@[k]@ == lines@[from + k]@,
            decreases n_lines - i,
        {
            acc.push(lines[from + i].clone());
            i = i + 1;
        }
        proof {
            let want = clipped_lines(views_of(lines@), from as int, n_lines as int);
            assert(views_of(acc@).len() == want.len());
            assert forall|k: int| 0 <= k < want.len() implies views_of(acc@)[k] == want[k] by {
                assert(acc@[k]@ == lines@[from + k]@);
            }
            assert(views_of(acc@) =~= want);
        }
        acc
    }

    /// Attach to every hit the verbatim lines it spans: `contents[i]` holds
    /// the lines of `files[i]`, and a hit that runs past the end of its file
    /// is silently truncated.
    pub fn collect_hunks(matches: GrepResult, contents: &Vec<Vec<String>>) -> (r: Hunks)
        requires
            matches.wf(),
            hits_disjoint(matches),
            contents@.len() == matches.files@.len(),
        ensures
            r.files == matches.files,
            r.hunks@.len() == matches.hits@.len(),
            forall|i: int|
                0 <= i < matches.hits@.len() ==> (#[trigger] r.hunks@[i]).0
                    == matches.hits@[i].file_id && r.hunks@[i].1 == matches.hits@[i].from
                    && views_of(r.hunks@[i].2@) == clipped_lines(
                    views_of(contents@[matches.hits@[i].file_id as int]@),
                    matches.hits@[i].from as int,
                    matches.hits@[i].n_lines as int,
                ),
            r.wf(),
    {
        let mut hunks: Vec<(usize, usize, Vec<String>)> = Vec::new();
        let n = matches.hits.len();
        let mut i: usize = 0;
        while i < n
            invariant
                0 <= i <= n,
                matches.wf(),
                n == matches.hits@.len(),
                contents@.len() == matches.files@.len(),
                hunks@.len() == i as int,
                forall|k: int|
                    0 <= k < i ==> (#[trigger] hunks@[k]).0 == matches.hits@[k].file_id
                        && hunks@[k].1 == matches.hits@[k].from && views_of(hunks@[k].2@)
                        == clipped_lines(
                        views_of(contents@[matches.hits@[k].file_id as int]@),
                        matches.hits@[k].from as int,
                        matches.hits@[k].n_lines as int,
                    ) && hunks@[k].2@.len() <= matches.hits@[k].n_lines,
            decreases n - i,
        {
            let h = matches.hits[i];
            proof {
                assert(matches.hit_in_range(matches.hits@[i as int]));
            }
            let lines = Self::collect_lines(&contents[h.file_id], h.from, h.n_lines);
            proof {
                assert(lines@.len() == views_of(lines@).len());
            }
            hunks.push((h.file_id, h.from, lines));
            i = i + 1;
        }
        let r = Hunks { files: matches.files, hunks };
        proof {
            assert forall|a: int, b: int|
                0 <= a < b < r.hunks@.len() implies ((#[trigger] r.hunks@[a]).0
                < (#[trigger] r.hunks@[b]).0 || (r.hunks@[a].0 == r.hunks@[b].0 && r.hunks@[a].1
                + r.hunks@[a].2@.len() < r.hunks@[b].1)) by {
                let ha = matches.hits@[a];
                let hb = matches.hits@[b];
                assert(crate::git::hit_le(ha, hb));
                if ha.file_id == hb.file_id {
                    assert(ha.from + ha.n_lines < hb.from);
                }
            }
            assert forall|a: int|
                0 <= a < r.hunks@.len() implies (#[trigger] r.hunks@[a]).0 < r.files@.len()
                && r.hunks@[a].1 + r.hunks@[a].2@.len() <= usize::MAX && r.hunks@[a].1
                < usize::MAX by {
                assert(matches.hit_in_range(matches.hits@[a]));
            }
        }
        r
    }
}

} // verus!
