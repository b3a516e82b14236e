//! Column titles and the cells that stand beneath them.
//!
//! Every estimate can name its columns, each name behind a prefix that
//! says which estimate it belongs to, and can list its values as cells in
//! the same order. A title is the names joined by single spaces.

use vstd::prelude::*;
use vstd::string::{StrSliceExecFns, StringExecFns};
use crate::coord::Coord;
use crate::speed::Speed;
use crate::stats::Sampled;

verus! {

/// One value of a row: a count, or the bit pattern of a binary64 number.
#[derive(Clone, Copy, Debug, PartialEq, Eq, Structural)]
pub enum Cell {
    Count(u64),
    Real(u64),
}

/// The names, joined by single spaces.
pub open spec fn joined(names: Seq<Seq<char>>) -> Seq<char>
    decreases names.len(),
{
    if names.len() == 0 {
        Seq::empty()
    } else if names.len() == 1 {
        names[0]
    } else {
        joined(names.drop_last()) + seq![' '] + names.last()
    }
}

/// The pieces of a text between its spaces.
pub open spec fn split(text: Seq<char>) -> Seq<Seq<char>>
    decreases text.len(),
{
    if text.len() == 0 {
        seq![Seq::empty()]
    } else if text.last() == ' ' {
        split(text.drop_last()).push(Seq::empty())
    } else {
        let pieces = split(text.drop_last());
        pieces.update(pieces.len() - 1, pieces.last().push(text.last()))
    }
}

/// The text holds no space.
pub open spec fn spaceless(text: Seq<char>) -> bool {
    forall|i: int| 0 <= i < text.len() ==> #[trigger] text[i] != ' '
}

/// None of the names holds a space.
pub open spec fn all_spaceless(names: Seq<Seq<char>>) -> bool {
    forall|i: int| 0 <= i < names.len() ==> spaceless(#[trigger] names[i])
}

/// The character is white space.
pub open spec fn is_white(c: char) -> bool {
    let u = c as u32;
    ||| 0x09 <= u <= 0x0d
    ||| u == 0x20
    ||| u == 0x85
    ||| u == 0xa0
    ||| u == 0x1680
    ||| 0x2000 <= u <= 0x200a
    ||| u == 0x2028
    ||| u == 0x2029
    ||| u == 0x202f
    ||| u == 0x205f
    ||| u == 0x3000
}

/// The character is a visible character of ASCII: neither a space nor a
/// control character.
pub open spec fn is_visible(c: char) -> bool {
    0x21 <= c as u32 <= 0x7e
}

/// The text can stand in a row as one token: it is not empty and all of
/// its characters are visible characters of ASCII.
pub open spec fn is_plain(text: Seq<char>) -> bool {
    text.len() > 0 && forall|i: int| 0 <= i < text.len() ==> is_visible(#[trigger] text[i])
}

/// Each of the texts can stand in a row as one token.
pub open spec fn all_plain(texts: Seq<Seq<char>>) -> bool {
    forall|i: int| 0 <= i < texts.len() ==> is_plain(#[trigger] texts[i])
}

/// The pieces of a text between its white space, none of them empty.
pub open spec fn words(text: Seq<char>) -> Seq<Seq<char>>
    decreases text.len(),
{
    if text.len() == 0 {
        Seq::empty()
    } else if is_white(text.last()) {
        words(text.drop_last())
    } else if text.len() == 1 || is_white(text[text.len() - 2]) {
        words(text.drop_last()).push(seq![text.last()])
    } else {
        let before = words(text.drop_last());
        before.update(before.len() - 1, before.last().push(text.last()))
    }
}

/// The columns of a sample snapshot.
pub open spec fn sampled_columns(specifier: Seq<char>) -> Seq<Seq<char>> {
    seq![specifier + "n"@, specifier + "mean"@, specifier + "sem"@]
}

/// The columns of a speed estimate.
pub open spec fn speed_columns(specifier: Seq<char>) -> Seq<Seq<char>> {
    sampled_columns(specifier).push(specifier + "max"@)
}

/// The columns of a coordinate estimate.
pub open spec fn coord_columns(specifier: Seq<char>) -> Seq<Seq<char>> {
    seq![
        specifier + "first"@,
        specifier + "last"@,
        specifier + "smallest"@,
        specifier + "largest"@,
    ] + sampled_columns(specifier)
}

/// The cells of a sample snapshot.
pub open spec fn sampled_cells(s: Sampled) -> Seq<Cell> {
    seq![Cell::Count(s.n), Cell::Real(s.mean), Cell::Real(s.sem)]
}

/// The cells of a speed estimate.
pub open spec fn speed_cells(s: Speed) -> Seq<Cell> {
    sampled_cells(s.stats).push(Cell::Real(s.max))
}

/// The cells of a coordinate estimate.
pub open spec fn coord_cells(c: Coord) -> Seq<Cell> {
    seq![Cell::Real(c.first), Cell::Real(c.last), Cell::Real(c.bound0), Cell::Real(c.bound1)]
        + sampled_cells(c.stats)
}

/// Splitting a text that ends in a spaceless piece: the piece is the last
/// one found, after those of the text before it.
pub proof fn lemma_split_piece(text: Seq<char>, piece: Seq<char>)
    requires
        spaceless(piece),
    ensures
        split(text + seq![' '] + piece) == split(text).push(piece),
    decreases piece.len(),
{
    let whole = text + seq![' '] + piece;
    if piece.len() == 0 {
        assert(whole.drop_last() =~= text);
        assert(piece =~= Seq::<char>::empty());
    } else {
        let shorter = piece.drop_last();
        assert(whole.drop_last() =~= text + seq![' '] + shorter);
        assert(piece[piece.len() - 1] != ' ');
        assert forall|i: int| 0 <= i < shorter.len() implies #[trigger] shorter[i] != ' ' by {
            assert(shorter[i] == piece[i]);
        }
        lemma_split_piece(text, shorter);
        assert(split(whole) =~= split(text).push(piece)) by {
            assert(shorter.push(piece.last()) =~= piece);
        }
    }
}

/// A spaceless text is its own single piece.
pub proof fn lemma_split_spaceless(piece: Seq<char>)
    requires
        spaceless(piece),
    ensures
        split(piece) == seq![piece],
    decreases piece.len(),
{
    if piece.len() == 0 {
        assert(piece =~= Seq::<char>::empty());
    } else {
        let shorter = piece.drop_last();
        assert(piece[piece.len() - 1] != ' ');
        assert forall|i: int| 0 <= i < shorter.len() implies #[trigger] shorter[i] != ' ' by {
            assert(shorter[i] == piece[i]);
        }
        lemma_split_spaceless(shorter);
        assert(shorter.push(piece.last()) =~= piece);
        assert(split(piece) =~= seq![piece]);
    }
}

/// A title of spaceless names splits into exactly those names: it has as
/// many space-separated tokens as there are columns.
pub proof fn lemma_split_joined(names: Seq<Seq<char>>)
    requires
        names.len() > 0,
        all_spaceless(names),
    ensures
        split(joined(names)) == names,
    decreases names.len(),
{
    if names.len() == 1 {
        lemma_split_spaceless(names[0]);
        assert(seq![names[0]] =~= names);
    } else {
        let front = names.drop_last();
        assert forall|i: int| 0 <= i < front.len() implies spaceless(#[trigger] front[i]) by {
            assert(front[i] == names[i]);
        }
        lemma_split_joined(front);
        assert(spaceless(names[names.len() - 1]));
        lemma_split_piece(joined(front), names.last());
        assert(front.push(names.last()) =~= names);
    }
}

/// A plain text holds no space and no other white space.
pub proof fn lemma_plain(text: Seq<char>)
    requires
        is_plain(text),
    ensures
        spaceless(text),
        forall|i: int| 0 <= i < text.len() ==> !is_white(#[trigger] text[i]),
{
    assert forall|i: int| 0 <= i < text.len() implies #[trigger] text[i] != ' ' && !is_white(
        text[i],
    ) by {
        assert(is_visible(text[i]));
        assert(' ' as u32 == 0x20);
    }
}

/// A plain text is its own single word.
proof fn lemma_words_plain(piece: Seq<char>)
    requires
        is_plain(piece),
    ensures
        words(piece) == seq![piece],
    decreases piece.len(),
{
    lemma_plain(piece);
    assert(!is_white(piece[piece.len() - 1]));
    if piece.len() == 1 {
        assert(words(piece.drop_last()) =~= Seq::<Seq<char>>::empty());
        assert(seq![piece.last()] =~= piece);
        assert(words(piece) =~= seq![piece]);
    } else {
        let shorter = piece.drop_last();
        assert forall|i: int| 0 <= i < shorter.len() implies is_visible(#[trigger] shorter[i]) by {
            assert(shorter[i] == piece[i]);
        }
        lemma_words_plain(shorter);
        assert(!is_white(piece[piece.len() - 2]));
        assert(shorter.push(piece.last()) =~= piece);
        assert(words(piece) =~= seq![piece]);
    }
}

/// A plain text behind a space is one more word.
proof fn lemma_words_piece(text: Seq<char>, piece: Seq<char>)
    requires
        is_plain(piece),
    ensures
        words(text + seq![' '] + piece) == words(text).push(piece),
    decreases piece.len(),
{
    let whole = text + seq![' '] + piece;
    lemma_plain(piece);
    assert(' ' as u32 == 0x20);
    assert(!is_white(piece[piece.len() - 1]));
    assert(whole.last() == piece.last());
    if piece.len() == 1 {
        let front = text + seq![' '];
        assert(whole.drop_last() =~= front);
        assert(front.drop_last() =~= text);
        assert(front.last() == ' ');
        assert(words(front) == words(text));
        assert(whole[whole.len() - 2] == ' ');
        assert(seq![piece.last()] =~= piece);
    } else {
        let shorter = piece.drop_last();
        assert forall|i: int| 0 <= i < shorter.len() implies is_visible(#[trigger] shorter[i]) by {
            assert(shorter[i] == piece[i]);
        }
        lemma_words_piece(text, shorter);
        assert(whole.drop_last() =~= text + seq![' '] + shorter);
        assert(whole[whole.len() - 2] == piece[piece.len() - 2]);
        assert(!is_white(piece[piece.len() - 2]));
        assert(shorter.push(piece.last()) =~= piece);
        assert(words(whole) =~= words(text).push(piece));
    }
}

/// A row of plain texts, joined by single spaces, falls into exactly
/// those texts: it has as many white-space-separated tokens as cells, and
/// each token is the text of its cell.
pub proof fn lemma_words_joined(texts: Seq<Seq<char>>)
    requires
        texts.len() > 0,
        all_plain(texts),
    ensures
        words(joined(texts)) == texts,
    decreases texts.len(),
{
    if texts.len() == 1 {
        lemma_words_plain(texts[0]);
        assert(seq![texts[0]] =~= texts);
    } else {
        let front = texts.drop_last();
        assert forall|i: int| 0 <= i < front.len() implies is_plain(#[trigger] front[i]) by {
            assert(front[i] == texts[i]);
        }
        lemma_words_joined(front);
        assert(is_plain(texts[texts.len() - 1]));
        lemma_words_piece(joined(front), texts.last());
        assert(front.push(texts.last()) =~= texts);
    }
}

/// Tells whether a text can stand in a row as one token.
pub fn plain(text: &str) -> (r: bool)
    ensures
        r == is_plain(text@),
{
    let n: usize = text.unicode_len();
    if n == 0 {
        return false;
    }
    let mut i: usize = 0;
    while i < n
        invariant
            i <= n,
            n == text@.len(),
            forall|j: int| 0 <= j < i ==> is_visible(#[trigger] text@[j]),
        decreases n - i,
    {
        let c: char = text.get_char(i);
        let u: u32 = c as u32;
        if u < 0x21 || u > 0x7e {
            return false;
        }
        i += 1;
    }
    true
}

/// Joining two lists of names in turn joins their titles by a space.
pub proof fn lemma_joined_concat(a: Seq<Seq<char>>, b: Seq<Seq<char>>)
    requires
        a.len() > 0,
        b.len() > 0,
    ensures
        joined(a + b) == joined(a) + seq![' '] + joined(b),
    decreases b.len(),
{
    if b.len() == 1 {
        assert((a + b).drop_last() =~= a);
        assert((a + b).last() == b[0]);
    } else {
        let front = b.drop_last();
        lemma_joined_concat(a, front);
        assert((a + b).drop_last() =~= a + front);
        assert((a + b).last() == b.last());
        assert(joined(a + b) =~= joined(a) + seq![' '] + joined(b));
    }
}

/// Something that names its columns.
pub trait Entitled {
    /// The column names, each behind `specifier`.
    spec fn columns(&self, specifier: Seq<char>) -> Seq<Seq<char>>;

    /// Appends the column names, each behind `specifier`, joined by single
    /// spaces.
    fn push_subtitle(&self, specifier: &str, to: &mut String)
        ensures
            final(to)@ == old(to)@ + joined(self.columns(specifier@)),
    ;

    /// Appends the column names, joined by single spaces.
    fn push_title(&self, to: &mut String)
        ensures
            final(to)@ == old(to)@ + joined(self.columns(Seq::empty())),
    {
        proof {
            reveal_strlit("");
            assert(""@ =~= Seq::<char>::empty());
        }
        self.push_subtitle("", to);
    }

    /// The column names, joined by single spaces.
    fn title(&self) -> (s: String)
        ensures
            s@ == joined(self.columns(Seq::empty())),
    {
        let mut s = String::new();
        self.push_title(&mut s);
        proof {
            assert(Seq::<char>::empty() + joined(self.columns(Seq::empty())) =~= joined(
                self.columns(Seq::empty()),
            ));
        }
        s
    }
}

/// Appends a name behind its prefix.
fn push_name(specifier: &str, name: &str, to: &mut String)
    ensures
        final(to)@ == old(to)@ + (specifier@ + name@),
{
    let ghost before = to@;
    to.append(specifier);
    to.append(name);
    proof {
        assert(to@ =~= before + (specifier@ + name@));
    }
}

/// Appends a space and then a name behind its prefix.
fn push_next_name(specifier: &str, name: &str, to: &mut String)
    ensures
        final(to)@ == old(to)@ + seq![' '] + (specifier@ + name@),
{
    let ghost before = to@;
    proof {
        reveal_strlit(" ");
        assert(" "@ =~= seq![' ']);
    }
    to.append(" ");
    to.append(specifier);
    to.append(name);
    proof {
        assert(to@ =~= before + seq![' '] + (specifier@ + name@));
    }
}

impl Entitled for Sampled {
    open spec fn columns(&self, specifier: Seq<char>) -> Seq<Seq<char>> {
        sampled_columns(specifier)
    }

    fn push_subtitle(&self, specifier: &str, to: &mut String) {
        let ghost before = to@;
        let ghost names = sampled_columns(specifier@);
        push_name(specifier, "n", to);
        push_next_name(specifier, "mean", to);
        push_next_name(specifier, "sem", to);
        proof {
            assert(names.drop_last() =~= seq![specifier@ + "n"@, specifier@ + "mean"@]);
            assert(names.drop_last().drop_last() =~= seq![specifier@ + "n"@]);
            assert(joined(names.drop_last().drop_last()) == specifier@ + "n"@);
            assert(joined(names.drop_last()) == (specifier@ + "n"@) + seq![' '] + (specifier@
                + "mean"@));
            assert(to@ =~= before + joined(names));
        }
    }
}

impl Entitled for Speed {
    open spec fn columns(&self, specifier: Seq<char>) -> Seq<Seq<char>> {
        speed_columns(specifier)
    }

    fn push_subtitle(&self, specifier: &str, to: &mut String) {
        let ghost before = to@;
        let ghost names = speed_columns(specifier@);
        self.stats.push_subtitle(specifier, to);
        push_next_name(specifier, "max", to);
        proof {
            assert(names.drop_last() =~= sampled_columns(specifier@));
            assert(to@ =~= before + joined(names));
        }
    }
}

impl Entitled for Coord {
    open spec fn columns(&self, specifier: Seq<char>) -> Seq<Seq<char>> {
        coord_columns(specifier)
    }

    fn push_subtitle(&self, specifier: &str, to: &mut String) {
        let ghost before = to@;
        let ghost ends = seq![
            specifier@ + "first"@,
            specifier@ + "last"@,
            specifier@ + "smallest"@,
            specifier@ + "largest"@,
        ];
        push_name(specifier, "first", to);
        push_next_name(specifier, "last", to);
        push_next_name(specifier, "smallest", to);
        push_next_name(specifier, "largest", to);
        proof {
            reveal_strlit(" ");
            assert(" "@ =~= seq![' ']);
            assert(ends.drop_last() =~= seq![
                specifier@ + "first"@,
                specifier@ + "last"@,
                specifier@ + "smallest"@,
            ]);
            assert(ends.drop_last().drop_last() =~= seq![
                specifier@ + "first"@,
                specifier@ + "last"@,
            ]);
            assert(ends.drop_last().drop_last().drop_last() =~= seq![specifier@ + "first"@]);
            assert(joined(ends.drop_last().drop_last().drop_last()) == specifier@ + "first"@);
            assert(joined(ends.drop_last().drop_last()) == (specifier@ + "first"@) + seq![' ']
                + (specifier@ + "last"@));
            assert(joined(ends.drop_last()) == (specifier@ + "first"@) + seq![' '] + (specifier@
                + "last"@) + seq![' '] + (specifier@ + "smallest"@));
            assert(ends.last() == specifier@ + "largest"@);
            assert(to@ =~= before + joined(ends));
        }
        to.append(" ");
        self.stats.push_subtitle(specifier, to);
        proof {
            lemma_joined_concat(ends, sampled_columns(specifier@));
            assert(to@ =~= before + joined(coord_columns(specifier@)));
        }
    }
}

impl Sampled {
    /// Appends the count, the mean and the standard error, in the order of
    /// their columns.
    pub fn push_cells(&self, to: &mut Vec<Cell>)
        ensures
            final(to)@ == old(to)@ + sampled_cells(*self),
    {
        let ghost before = to@;
        to.push(Cell::Count(self.n));
        to.push(Cell::Real(self.mean));
        to.push(Cell::Real(self.sem));
        proof {
            assert(to@ =~= before + sampled_cells(*self));
        }
    }
}

impl Speed {
    /// Appends the cells of the sample and the maximum, in the order of
    /// their columns.
    pub fn push_cells(&self, to: &mut Vec<Cell>)
        ensures
            final(to)@ == old(to)@ + speed_cells(*self),
    {
        let ghost before = to@;
        self.stats.push_cells(to);
        to.push(Cell::Real(self.max));
        proof {
            assert(to@ =~= before + speed_cells(*self));
        }
    }
}

impl Coord {
    /// Appends the ends, the bounds and the cells of the sample, in the
    /// order of their columns.
    pub fn push_cells(&self, to: &mut Vec<Cell>)
        ensures
            final(to)@ == old(to)@ + coord_cells(*self),
    {
        let ghost before = to@;
        to.push(Cell::Real(self.first));
        to.push(Cell::Real(self.last));
        to.push(Cell::Real(self.bound0));
        to.push(Cell::Real(self.bound1));
        self.stats.push_cells(to);
        proof {
            assert(to@ =~= before + coord_cells(*self));
        }
    }
}

} // verus!
