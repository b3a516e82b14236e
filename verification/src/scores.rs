//! The scores of one subject.

use vstd::prelude::*;
use vstd::string::StringExecFns;
use crate::bits::{finite, is_finite, is_nan, lemma_nan, NAN};
use crate::coord::{coord_of, extent_of, selected, the_coord, the_x, the_y, Coord, Extent};
use crate::parsing::DataLine;
use crate::speed::{lemma_window_of, speed_of, the_speed_in, window_of, Speed};
use crate::stats::{
    areas, finite_of, lemma_finite_of, lemma_sampled_of, midlines, r6_moments, rounded_moments,
    sampled_of, the_area, the_midline, Moments, Sampled,
};
use crate::titles::{
    all_plain, all_spaceless, coord_cells, coord_columns, is_plain, joined, lemma_joined_concat,
    lemma_split_joined, lemma_words_joined, plain, sampled_cells, sampled_columns, spaceless,
    speed_cells, speed_columns, split, words, Cell, Entitled,
};

verus! {

/// Start of the window of the initial speed: 10 s.
pub const INITIAL_FROM: u64 = 0x4024_0000_0000_0000;

/// End of the window of the initial speed: 20 s.
pub const INITIAL_TO: u64 = 0x4034_0000_0000_0000;

/// Start of the window of the calm speed: 270 s.
pub const CALM_FROM: u64 = 0x4070_e000_0000_0000;

/// End of the window of the calm speed: 290 s.
pub const CALM_TO: u64 = 0x4072_2000_0000_0000;

/// Start of the window of the aroused speed: 440 s.
pub const AROUSED_FROM: u64 = 0x407b_8000_0000_0000;

/// End of the window of the aroused speed: 450 s.
pub const AROUSED_TO: u64 = 0x407c_2000_0000_0000;

/// The number of columns of a row of scores.
pub const COLUMNS: usize = 35;

/// Everything that is estimated of one subject.
#[derive(Clone, Copy, Debug)]
pub struct Scores {
    pub id: u32,
    pub t0: u64,
    pub t1: u64,
    pub area: Sampled,
    pub midline: Sampled,
    pub initial_speed: Option<Speed>,
    pub calm_speed: Option<Speed>,
    pub aroused_speed: Option<Speed>,
    pub x: Coord,
    pub y: Coord,
}

/// What is kept of the moments of each sample of a recording. The entry
/// of a window that yields nothing is not read.
#[derive(Clone, Copy, Debug, PartialEq, Eq, Structural)]
pub struct Estimates {
    pub area: Moments,
    pub midline: Moments,
    pub initial_speed: Moments,
    pub calm_speed: Moments,
    pub aroused_speed: Moments,
    pub x: Moments,
    pub y: Moments,
}

/// The x channel of a recording.
pub open spec fn xs(input: Seq<DataLine>) -> Seq<u64> {
    Seq::new(input.len(), |i: int| input[i].x)
}

/// The y channel of a recording.
pub open spec fn ys(input: Seq<DataLine>) -> Seq<u64> {
    Seq::new(input.len(), |i: int| input[i].y)
}

/// No record of the recording has a finite time.
pub open spec fn timeless(input: Seq<DataLine>) -> bool {
    forall|i: int| 0 <= i < input.len() ==> !is_finite((#[trigger] input[i]).time)
}

/// Records `i0` and `i1` are the first and the last with a finite time.
pub open spec fn is_span(input: Seq<DataLine>, i0: int, i1: int) -> bool {
    &&& 0 <= i0 <= i1 < input.len()
    &&& is_finite(input[i0].time)
    &&& is_finite(input[i1].time)
    &&& forall|j: int| 0 <= j < i0 ==> !is_finite((#[trigger] input[j]).time)
    &&& forall|j: int| i1 < j < input.len() ==> !is_finite((#[trigger] input[j]).time)
}

/// The scores of a subject of which nothing was seen.
pub open spec fn zero_scores() -> Scores {
    let nothing = Sampled { mean: NAN, sem: NAN, n: 0 };
    let nowhere = Coord { first: NAN, last: NAN, bound0: NAN, bound1: NAN, stats: nothing };
    Scores {
        id: 0,
        t0: NAN,
        t1: NAN,
        area: nothing,
        midline: nothing,
        initial_speed: None,
        calm_speed: None,
        aroused_speed: None,
        x: nowhere,
        y: nowhere,
    }
}

/// The estimate of one window, if the window yields anything.
pub open spec fn speed_in(t0: u64, t1: u64, input: Seq<DataLine>, moments: Moments) -> Option<
    Speed,
> {
    match window_of(t0, t1, input) {
        Some(w) => Some(speed_of(w, moments)),
        None => None,
    }
}

/// The scores of subject `id`, whose recording `input` has its first
/// finite time `t0` and its last `t1`, given what is kept of the moments
/// of each sample.
pub open spec fn scores_of(id: u32, t0: u64, t1: u64, input: Seq<DataLine>, e: Estimates)
    -> Scores {
    Scores {
        id,
        t0,
        t1,
        area: sampled_of(finite_of(areas(input)).len() as u64, e.area),
        midline: sampled_of(finite_of(midlines(input)).len() as u64, e.midline),
        initial_speed: speed_in(INITIAL_FROM, INITIAL_TO, input, e.initial_speed),
        calm_speed: speed_in(CALM_FROM, CALM_TO, input, e.calm_speed),
        aroused_speed: speed_in(AROUSED_FROM, AROUSED_TO, input, e.aroused_speed),
        x: coord_of(extent_of(xs(input)), e.x),
        y: coord_of(extent_of(ys(input)), e.y),
    }
}

/// `stored` is what is kept of the sample `samples`: what `reduce`
/// reported of it, brought by `round` to the precision it is stored with.
pub open spec fn reduced<F: Fn(&Vec<u64>) -> Moments, R: Fn(u64, u64) -> u64>(
    reduce: F,
    round: R,
    samples: Seq<u64>,
    stored: Moments,
) -> bool {
    exists|v: Vec<u64>, raw: Moments|
        v@ == samples && reduce.ensures((&v,), raw) && rounded_moments(round, raw, stored)
}

/// `stored` is what is kept of the sample of a window, if the window
/// yields anything.
pub open spec fn reduced_in<F: Fn(&Vec<u64>) -> Moments, R: Fn(u64, u64) -> u64>(
    reduce: F,
    round: R,
    t0: u64,
    t1: u64,
    input: Seq<DataLine>,
    stored: Moments,
) -> bool {
    match window_of(t0, t1, input) {
        Some(w) => reduced(reduce, round, w.0, stored),
        None => true,
    }
}

/// `e` is what is kept of the samples of a recording.
pub open spec fn estimated<F: Fn(&Vec<u64>) -> Moments, R: Fn(u64, u64) -> u64>(
    reduce: F,
    round: R,
    input: Seq<DataLine>,
    e: Estimates,
) -> bool {
    &&& reduced(reduce, round, finite_of(areas(input)), e.area)
    &&& reduced(reduce, round, finite_of(midlines(input)), e.midline)
    &&& reduced_in(reduce, round, INITIAL_FROM, INITIAL_TO, input, e.initial_speed)
    &&& reduced_in(reduce, round, CALM_FROM, CALM_TO, input, e.calm_speed)
    &&& reduced_in(reduce, round, AROUSED_FROM, AROUSED_TO, input, e.aroused_speed)
    &&& reduced(reduce, round, finite_of(xs(input)), e.x)
    &&& reduced(reduce, round, finite_of(ys(input)), e.y)
}

/// The columns of a row of scores.
pub open spec fn scores_columns(specifier: Seq<char>) -> Seq<Seq<char>> {
    seq![specifier + "id"@, specifier + "t0"@, specifier + "t1"@] + sampled_columns(
        specifier + "area-"@,
    ) + sampled_columns(specifier + "midline-"@) + speed_columns(specifier + "initial-"@)
        + speed_columns(specifier + "calm-"@) + speed_columns(specifier + "aroused-"@)
        + coord_columns(specifier + "x-"@) + coord_columns(specifier + "y-"@)
}

/// The speed that stands in a row for a window: its estimate, or the zero
/// estimate where the window yielded nothing.
pub open spec fn shown_speed(speed: Option<Speed>) -> Speed {
    match speed {
        Some(s) => s,
        None => Speed { stats: Sampled { mean: NAN, sem: NAN, n: 0 }, max: NAN },
    }
}

/// The cells of a row of scores.
pub open spec fn scores_cells(s: Scores) -> Seq<Cell> {
    seq![Cell::Count(s.id as u64), Cell::Real(s.t0), Cell::Real(s.t1)] + sampled_cells(s.area)
        + sampled_cells(s.midline) + speed_cells(shown_speed(s.initial_speed)) + speed_cells(
        shown_speed(s.calm_speed),
    ) + speed_cells(shown_speed(s.aroused_speed)) + coord_cells(s.x) + coord_cells(s.y)
}

/// `texts` is what `show` made of the cells, one text for each cell.
pub open spec fn shown<F: Fn(Cell) -> String>(show: F, cells: Seq<Cell>, texts: Seq<Seq<char>>)
    -> bool {
    &&& texts.len() == cells.len()
    &&& forall|i: int|
        0 <= i < cells.len() ==> exists|s: String|
            show.ensures((#[trigger] cells[i],), s) && s@ == texts[i]
}

/// The scores count, for each channel, its finite values; a channel
/// without finite values has no mean, and one with fewer than two has no
/// standard error. A window that yields something counts its samples,
/// five at least.
pub proof fn lemma_scores_counts(id: u32, t0: u64, t1: u64, input: Seq<DataLine>, e: Estimates)
    requires
        input.len() <= u64::MAX,
    ensures
        ({
            let s = scores_of(id, t0, t1, input, e);
            &&& s.area.n == finite_of(areas(input)).len()
            &&& s.midline.n == finite_of(midlines(input)).len()
            &&& s.x.stats.n == finite_of(xs(input)).len()
            &&& s.y.stats.n == finite_of(ys(input)).len()
            &&& s.area.n == 0 ==> is_nan(s.area.mean)
            &&& s.area.n <= 1 ==> is_nan(s.area.sem)
            &&& s.midline.n == 0 ==> is_nan(s.midline.mean)
            &&& s.midline.n <= 1 ==> is_nan(s.midline.sem)
            &&& s.x.stats.n == 0 ==> is_nan(s.x.stats.mean) && is_nan(s.x.first) && is_nan(
                s.x.last,
            )
            &&& s.x.stats.n <= 1 ==> is_nan(s.x.stats.sem)
            &&& s.y.stats.n == 0 ==> is_nan(s.y.stats.mean) && is_nan(s.y.first) && is_nan(
                s.y.last,
            )
            &&& s.y.stats.n <= 1 ==> is_nan(s.y.stats.sem)
            &&& s.initial_speed matches Some(v) ==> v.stats.n >= 5 && v.stats.n == window_of(
                INITIAL_FROM,
                INITIAL_TO,
                input,
            )->Some_0.0.len()
            &&& s.calm_speed matches Some(v) ==> v.stats.n >= 5 && v.stats.n == window_of(
                CALM_FROM,
                CALM_TO,
                input,
            )->Some_0.0.len()
            &&& s.aroused_speed matches Some(v) ==> v.stats.n >= 5 && v.stats.n == window_of(
                AROUSED_FROM,
                AROUSED_TO,
                input,
            )->Some_0.0.len()
        }),
{
    lemma_finite_of(areas(input));
    lemma_finite_of(midlines(input));
    lemma_finite_of(xs(input));
    lemma_finite_of(ys(input));
    lemma_sampled_of(finite_of(areas(input)).len() as u64, e.area);
    lemma_sampled_of(finite_of(midlines(input)).len() as u64, e.midline);
    lemma_sampled_of(finite_of(xs(input)).len() as u64, e.x);
    lemma_sampled_of(finite_of(ys(input)).len() as u64, e.y);
    lemma_nan();
    if window_of(INITIAL_FROM, INITIAL_TO, input) is Some {
        lemma_window_of(INITIAL_FROM, INITIAL_TO, input);
    }
    if window_of(CALM_FROM, CALM_TO, input) is Some {
        lemma_window_of(CALM_FROM, CALM_TO, input);
    }
    if window_of(AROUSED_FROM, AROUSED_TO, input) is Some {
        lemma_window_of(AROUSED_FROM, AROUSED_TO, input);
    }
}

/// A row of scores has thirty-five cells, whatever the scores.
pub proof fn lemma_cells_len(s: Scores)
    ensures
        scores_cells(s).len() == COLUMNS,
{
}

/// Behind a spaceless prefix, a row of scores has thirty-five columns and
/// none of their names holds a space.
pub proof fn lemma_columns(specifier: Seq<char>)
    requires
        spaceless(specifier),
    ensures
        scores_columns(specifier).len() == COLUMNS,
        all_spaceless(scores_columns(specifier)),
{
    reveal_strlit("id");
    reveal_strlit("t0");
    reveal_strlit("t1");
    reveal_strlit("n");
    reveal_strlit("mean");
    reveal_strlit("sem");
    reveal_strlit("max");
    reveal_strlit("first");
    reveal_strlit("last");
    reveal_strlit("smallest");
    reveal_strlit("largest");
    reveal_strlit("area-");
    reveal_strlit("midline-");
    reveal_strlit("initial-");
    reveal_strlit("calm-");
    reveal_strlit("aroused-");
    reveal_strlit("x-");
    reveal_strlit("y-");
    let names = scores_columns(specifier);
    assert(names.len() == 35);
    assert forall|i: int| 0 <= i < names.len() implies spaceless(#[trigger] names[i]) by {
        let head = seq![specifier + "id"@, specifier + "t0"@, specifier + "t1"@];
        let a = sampled_columns(specifier + "area-"@);
        let m = sampled_columns(specifier + "midline-"@);
        let s1 = speed_columns(specifier + "initial-"@);
        let s2 = speed_columns(specifier + "calm-"@);
        let s3 = speed_columns(specifier + "aroused-"@);
        let x = coord_columns(specifier + "x-"@);
        let y = coord_columns(specifier + "y-"@);
        assert(names == head + a + m + s1 + s2 + s3 + x + y);
        if i < 3 {
            assert(names[i] == head[i]);
        } else if i < 6 {
            assert(names[i] == a[i - 3]);
        } else if i < 9 {
            assert(names[i] == m[i - 6]);
        } else if i < 13 {
            assert(names[i] == s1[i - 9]);
        } else if i < 17 {
            assert(names[i] == s2[i - 13]);
        } else if i < 21 {
            assert(names[i] == s3[i - 17]);
        } else if i < 28 {
            assert(names[i] == x[i - 21]);
        } else {
            assert(names[i] == y[i - 28]);
        }
    }
}

/// The title of a row of scores and the row itself have the same number
/// of tokens, thirty-five, whatever the scores: the title, behind a
/// spaceless prefix, falls at its spaces into the names of the columns,
/// and the row, made of a plain text for each cell, falls at its white
/// space into those texts.
pub proof fn lemma_title_matches_row(s: Scores, specifier: Seq<char>, texts: Seq<Seq<char>>)
    requires
        spaceless(specifier),
        texts.len() == scores_cells(s).len(),
        all_plain(texts),
    ensures
        split(joined(scores_columns(specifier))) == scores_columns(specifier),
        words(joined(texts)) == texts,
        split(joined(scores_columns(specifier))).len() == words(joined(texts)).len(),
        words(joined(texts)).len() == COLUMNS,
{
    lemma_columns(specifier);
    lemma_cells_len(s);
    lemma_split_joined(scores_columns(specifier));
    lemma_words_joined(texts);
}

/// A prefix with one more part behind it.
fn extended(specifier: &str, part: &str) -> (r: String)
    ensures
        r@ == specifier@ + part@,
{
    let mut sub = String::new();
    sub.append(specifier);
    sub.append(part);
    proof {
        assert(sub@ =~= specifier@ + part@);
    }
    sub
}

/// Appends a space and the columns of `part`, each behind `specifier`.
fn push_next_subtitle<T: Entitled>(
    part: &T,
    specifier: &str,
    to: &mut String,
    Ghost(names): Ghost<Seq<Seq<char>>>,
)
    requires
        names.len() > 0,
        part.columns(specifier@).len() > 0,
    ensures
        final(to)@ == old(to)@ + seq![' '] + joined(part.columns(specifier@)),
        old(to)@ == joined(names) ==> final(to)@ == joined(names + part.columns(specifier@)),
{
    let ghost before = to@;
    proof {
        reveal_strlit(" ");
        assert(" "@ =~= seq![' ']);
    }
    to.append(" ");
    part.push_subtitle(specifier, to);
    proof {
        lemma_joined_concat(names, part.columns(specifier@));
        assert(to@ =~= before + seq![' '] + joined(part.columns(specifier@)));
    }
}

impl Entitled for Scores {
    open spec fn columns(&self, specifier: Seq<char>) -> Seq<Seq<char>> {
        scores_columns(specifier)
    }

    fn push_subtitle(&self, specifier: &str, to: &mut String) {
        let ghost before = to@;
        let ghost head = seq![specifier@ + "id"@, specifier@ + "t0"@, specifier@ + "t1"@];
        let mut title = String::new();
        title.append(specifier);
        title.append("id");
        title.append(" ");
        title.append(specifier);
        title.append("t0");
        title.append(" ");
        title.append(specifier);
        title.append("t1");
        proof {
            reveal_strlit(" ");
            assert(" "@ =~= seq![' ']);
            assert(head.drop_last() =~= seq![specifier@ + "id"@, specifier@ + "t0"@]);
            assert(head.drop_last().drop_last() =~= seq![specifier@ + "id"@]);
            assert(joined(head.drop_last().drop_last()) == specifier@ + "id"@);
            assert(joined(head.drop_last()) == (specifier@ + "id"@) + seq![' '] + (specifier@
                + "t0"@));
            assert(title@ =~= joined(head));
        }
        let mock = Speed::zero();
        let sub = extended(specifier, "area-");
        push_next_subtitle(&self.area, sub.as_str(), &mut title, Ghost(head));
        let ghost names = head + sampled_columns(specifier@ + "area-"@);
        let sub = extended(specifier, "midline-");
        push_next_subtitle(&self.midline, sub.as_str(), &mut title, Ghost(names));
        let ghost names = names + sampled_columns(specifier@ + "midline-"@);
        let sub = extended(specifier, "initial-");
        push_next_subtitle(&mock, sub.as_str(), &mut title, Ghost(names));
        let ghost names = names + speed_columns(specifier@ + "initial-"@);
        let sub = extended(specifier, "calm-");
        push_next_subtitle(&mock, sub.as_str(), &mut title, Ghost(names));
        let ghost names = names + speed_columns(specifier@ + "calm-"@);
        let sub = extended(specifier, "aroused-");
        push_next_subtitle(&mock, sub.as_str(), &mut title, Ghost(names));
        let ghost names = names + speed_columns(specifier@ + "aroused-"@);
        let sub = extended(specifier, "x-");
        push_next_subtitle(&self.x, sub.as_str(), &mut title, Ghost(names));
        let ghost names = names + coord_columns(specifier@ + "x-"@);
        let sub = extended(specifier, "y-");
        push_next_subtitle(&self.y, sub.as_str(), &mut title, Ghost(names));
        proof {
            assert(title@ == joined(scores_columns(specifier@)));
        }
        to.append(title.as_str());
    }
}

impl Scores {
    /// The scores of a subject of which nothing was seen.
    pub fn zero() -> (r: Scores)
        ensures
            r == zero_scores(),
    {
        Scores {
            id: 0,
            t0: NAN,
            t1: NAN,
            area: Sampled::zero(),
            midline: Sampled::zero(),
            initial_speed: None,
            calm_speed: None,
            aroused_speed: None,
            x: Coord::zero(),
            y: Coord::zero(),
        }
    }

    /// The cells of the row, in the order of its columns. A window that
    /// yielded nothing is shown as the zero estimate.
    pub fn cells(&self) -> (r: Vec<Cell>)
        ensures
            r@ == scores_cells(*self),
            r@.len() == COLUMNS,
    {
        let mut to: Vec<Cell> = Vec::new();
        to.push(Cell::Count(self.id as u64));
        to.push(Cell::Real(self.t0));
        to.push(Cell::Real(self.t1));
        proof {
            assert(to@ =~= seq![
                Cell::Count(self.id as u64),
                Cell::Real(self.t0),
                Cell::Real(self.t1),
            ]);
        }
        self.area.push_cells(&mut to);
        self.midline.push_cells(&mut to);
        let initial = match self.initial_speed {
            Some(s) => s,
            None => Speed::zero(),
        };
        initial.push_cells(&mut to);
        let calm = match self.calm_speed {
            Some(s) => s,
            None => Speed::zero(),
        };
        calm.push_cells(&mut to);
        let aroused = match self.aroused_speed {
            Some(s) => s,
            None => Speed::zero(),
        };
        aroused.push_cells(&mut to);
        self.x.push_cells(&mut to);
        self.y.push_cells(&mut to);
        to
    }

    /// The row as text: what `show` makes of each cell, joined by single
    /// spaces. Every cell is asked of `show`. There is a row only where
    /// each text can stand as one token, that is, where it is not empty
    /// and holds visible characters of ASCII only; the row then falls into
    /// exactly those texts, one for each column.
    pub fn row<F: Fn(Cell) -> String>(&self, show: F) -> (r: Option<String>)
        requires
            forall|c: Cell| show.requires((c,)),
        ensures
            exists|texts: Seq<Seq<char>>|
                shown(show, scores_cells(*self), texts) && match r {
                    Some(text) => all_plain(texts) && text@ == joined(texts) && words(text@)
                        == texts,
                    None => !all_plain(texts),
                },
            r matches Some(text) ==> words(text@).len() == COLUMNS,
    {
        let cells = self.cells();
        let mut out = String::new();
        let mut tokens: bool = true;
        let ghost mut texts: Seq<Seq<char>> = Seq::empty();
        let mut i: usize = 0;
        while i < cells.len()
            invariant
                i <= cells.len(),
                cells@ == scores_cells(*self),
                forall|c: Cell| show.requires((c,)),
                shown(show, cells@.take(i as int), texts),
                out@ == joined(texts),
                tokens == all_plain(texts),
            decreases cells.len() - i,
        {
            let text = show(cells[i]);
            let ghost earlier = texts;
            if !plain(text.as_str()) {
                tokens = false;
            }
            if i > 0 {
                proof {
                    reveal_strlit(" ");
                    assert(" "@ =~= seq![' ']);
                }
                out.append(" ");
            }
            out.append(text.as_str());
            proof {
                texts = texts.push(text@);
                assert(texts.drop_last() =~= earlier);
                assert(out@ =~= joined(texts));
                assert(texts[i as int] == text@);
                assert(all_plain(texts) == (all_plain(earlier) && is_plain(text@))) by {
                    if all_plain(earlier) && is_plain(text@) {
                        assert forall|k: int| 0 <= k < texts.len() implies is_plain(
                            #[trigger] texts[k],
                        ) by {
                            if k < i {
                                assert(texts[k] == earlier[k]);
                            }
                        }
                    }
                    if all_plain(texts) {
                        assert forall|k: int| 0 <= k < earlier.len() implies is_plain(
                            #[trigger] earlier[k],
                        ) by {
                            assert(texts[k] == earlier[k]);
                        }
                    }
                }
                let now = cells@.take(i + 1);
                assert forall|k: int| 0 <= k < now.len() implies exists|s: String|
                    show.ensures((#[trigger] now[k],), s) && s@ == texts[k] by {
                    if k < i {
                        assert(now[k] == cells@.take(i as int)[k]);
                        assert(texts[k] == earlier[k]);
                        let s0 = choose|s: String|
                            show.ensures((cells@.take(i as int)[k],), s) && s@ == earlier[k];
                        assert(show.ensures((now[k],), s0) && s0@ == texts[k]);
                    } else {
                        assert(show.ensures((now[k],), text) && text@ == texts[k]);
                    }
                }
            }
            i += 1;
        }
        proof {
            assert(cells@.take(i as int) =~= cells@);
            if tokens {
                lemma_words_joined(texts);
            }
        }
        if tokens {
            Some(out)
        } else {
            None
        }
    }
}

/// What is kept of a sample: what `reduce` reports of it, brought by
/// `round` to the precision it is stored with.
fn estimate<F: Fn(&Vec<u64>) -> Moments, R: Fn(u64, u64) -> u64>(
    samples: &Vec<u64>,
    reduce: &F,
    round: &R,
) -> (r: Moments)
    requires
        forall|v: Vec<u64>| reduce.requires((&v,)),
        forall|v: u64, scale: u64| round.requires((v, scale)),
    ensures
        reduced(*reduce, *round, samples@, r),
{
    let raw = reduce(samples);
    r6_moments(raw, round)
}

/// The estimate of one window of a recording, and what is kept of its
/// sample.
fn speed_estimate<F: Fn(&Vec<u64>) -> Moments, R: Fn(u64, u64) -> u64>(
    t0: u64,
    t1: u64,
    input: &Vec<DataLine>,
    reduce: &F,
    round: &R,
) -> (r: (Option<Speed>, Moments))
    requires
        forall|v: Vec<u64>| reduce.requires((&v,)),
        forall|v: u64, scale: u64| round.requires((v, scale)),
    ensures
        reduced_in(*reduce, *round, t0, t1, input@, r.1),
        r.0 == speed_in(t0, t1, input@, r.1),
{
    match the_speed_in(t0, t1, input) {
        Some(window) => {
            let moments = estimate(&window.samples, reduce, round);
            (Some(Speed::of(&window, moments)), moments)
        },
        None => (None, Moments { mean: NAN, sem: NAN }),
    }
}

/// The estimate of one coordinate of a recording, and what is kept of
/// its sample.
fn coord_estimate<F: Fn(&Vec<u64>) -> Moments, R: Fn(u64, u64) -> u64>(
    extent: &Extent,
    reduce: &F,
    round: &R,
) -> (r: (Coord, Moments))
    requires
        forall|v: Vec<u64>| reduce.requires((&v,)),
        forall|v: u64, scale: u64| round.requires((v, scale)),
    ensures
        reduced(*reduce, *round, extent@.samples, r.1),
        r.0 == coord_of(extent@, r.1),
{
    let moments = estimate(&extent.samples, reduce, round);
    (Coord::of(extent, moments), moments)
}

/// A recording has a record with a finite time, or it is timeless; and
/// if it has one, it has a first and a last such record, and no other
/// pair of records is its span.
pub proof fn lemma_span(input: Seq<DataLine>)
    ensures
        timeless(input) || exists|i0: int, i1: int| is_span(input, i0, i1),
        forall|i0: int, i1: int, j0: int, j1: int|
            is_span(input, i0, i1) && is_span(input, j0, j1) ==> i0 == j0 && i1 == j1,
        forall|i0: int, i1: int| is_span(input, i0, i1) ==> !timeless(input),
{
    if !timeless(input) {
        let k = choose|k: int| 0 <= k < input.len() && is_finite((#[trigger] input[k]).time);
        let i0 = lemma_first_finite(input, k);
        let i1 = lemma_last_finite(input, k);
        assert(is_span(input, i0, i1));
    }
    assert forall|i0: int, i1: int, j0: int, j1: int|
        is_span(input, i0, i1) && is_span(input, j0, j1) implies i0 == j0 && i1 == j1 by {
        if i0 < j0 {
            assert(!is_finite(input[i0].time));
        }
        if j0 < i0 {
            assert(!is_finite(input[j0].time));
        }
        if i1 < j1 {
            assert(!is_finite(input[j1].time));
        }
        if j1 < i1 {
            assert(!is_finite(input[i1].time));
        }
    }
    assert forall|i0: int, i1: int| is_span(input, i0, i1) implies !timeless(input) by {
        assert(is_finite(input[i0].time));
    }
}

/// The first record with a finite time, given that record `k` has one.
proof fn lemma_first_finite(input: Seq<DataLine>, k: int) -> (i0: int)
    requires
        0 <= k < input.len(),
        is_finite(input[k].time),
    ensures
        0 <= i0 <= k,
        is_finite(input[i0].time),
        forall|j: int| 0 <= j < i0 ==> !is_finite((#[trigger] input[j]).time),
    decreases k,
{
    if exists|j: int| 0 <= j < k && is_finite((#[trigger] input[j]).time) {
        let j = choose|j: int| 0 <= j < k && is_finite((#[trigger] input[j]).time);
        lemma_first_finite(input, j)
    } else {
        k
    }
}

/// The last record with a finite time, given that record `k` has one.
proof fn lemma_last_finite(input: Seq<DataLine>, k: int) -> (i1: int)
    requires
        0 <= k < input.len(),
        is_finite(input[k].time),
    ensures
        k <= i1 < input.len(),
        is_finite(input[i1].time),
        forall|j: int| i1 < j < input.len() ==> !is_finite((#[trigger] input[j]).time),
    decreases input.len() - k,
{
    if exists|j: int| k < j < input.len() && is_finite((#[trigger] input[j]).time) {
        let j = choose|j: int| k < j < input.len() && is_finite((#[trigger] input[j]).time);
        lemma_last_finite(input, j)
    } else {
        k
    }
}

/// The scores of subject `id` from its recording.
///
/// `reduce` is asked for the mean and the standard error of each sample:
/// of the finite areas, of the finite midline lengths, of each speed
/// window that yields anything, and of the finite values of either
/// coordinate. `round` is asked to bring what `reduce` reported to the
/// precision it is stored with. A recording without a finite time yields
/// the zero scores, and neither is asked at all.
pub fn the_everything<F: Fn(&Vec<u64>) -> Moments, R: Fn(u64, u64) -> u64>(
    id: u32,
    input: &Vec<DataLine>,
    reduce: F,
    round: R,
) -> (r: Scores)
    requires
        forall|v: Vec<u64>| reduce.requires((&v,)),
        forall|v: u64, scale: u64| round.requires((v, scale)),
    ensures
        timeless(input@) ==> r == zero_scores(),
        forall|i0: int, i1: int|
            is_span(input@, i0, i1) ==> exists|e: Estimates|
                estimated(reduce, round, input@, e) && r == scores_of(
                    id,
                    input@[i0].time,
                    input@[i1].time,
                    input@,
                    e,
                ),
{
    let mut i0: usize = 0;
    while i0 < input.len() && !finite(input[i0].time)
        invariant
            i0 <= input.len(),
            forall|j: int| 0 <= j < i0 ==> !is_finite((#[trigger] input@[j]).time),
        decreases input.len() - i0,
    {
        i0 += 1;
    }
    if i0 == input.len() {
        proof {
            lemma_span(input@);
        }
        return Scores::zero();
    }
    let mut i1: usize = input.len() - 1;
    while i1 > i0 && !finite(input[i1].time)
        invariant
            i0 <= i1 < input.len(),
            forall|j: int| i1 < j < input@.len() ==> !is_finite((#[trigger] input@[j]).time),
        decreases i1,
    {
        i1 -= 1;
    }
    let t0: u64 = input[i0].time;
    let t1: u64 = input[i1].time;
    proof {
        assert(is_finite(input@[i0 as int].time));
        assert(is_span(input@, i0 as int, i1 as int));
        lemma_span(input@);
    }

    let area_samples = the_area(input);
    let area_moments = estimate(&area_samples, &reduce, &round);
    let area = Sampled::of(area_samples.len() as u64, area_moments);
    let midline_samples = the_midline(input);
    let midline_moments = estimate(&midline_samples, &reduce, &round);
    let midline = Sampled::of(midline_samples.len() as u64, midline_moments);
    let (initial_speed, initial_moments) = speed_estimate(
        INITIAL_FROM,
        INITIAL_TO,
        input,
        &reduce,
        &round,
    );
    let (calm_speed, calm_moments) = speed_estimate(CALM_FROM, CALM_TO, input, &reduce, &round);
    let (aroused_speed, aroused_moments) = speed_estimate(
        AROUSED_FROM,
        AROUSED_TO,
        input,
        &reduce,
        &round,
    );
    let x_extent = the_coord(the_x, input);
    let (x, x_moments) = coord_estimate(&x_extent, &reduce, &round);
    let y_extent = the_coord(the_y, input);
    let (y, y_moments) = coord_estimate(&y_extent, &reduce, &round);

    let r = Scores { id, t0, t1, area, midline, initial_speed, calm_speed, aroused_speed, x, y };
    proof {
        let e = Estimates {
            area: area_moments,
            midline: midline_moments,
            initial_speed: initial_moments,
            calm_speed: calm_moments,
            aroused_speed: aroused_moments,
            x: x_moments,
            y: y_moments,
        };
        assert(x_extent@ == extent_of(xs(input@))) by {
            let values = choose|values: Seq<u64>|
                selected(the_x, input@, values) && x_extent@ == extent_of(values);
            assert(values =~= xs(input@));
        }
        assert(y_extent@ == extent_of(ys(input@))) by {
            let values = choose|values: Seq<u64>|
                selected(the_y, input@, values) && y_extent@ == extent_of(values);
            assert(values =~= ys(input@));
        }
        assert(estimated(reduce, round, input@, e));
        assert(r == scores_of(id, t0, t1, input@, e));
    }
    r
}

} // verus!
