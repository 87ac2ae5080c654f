//! Properties of the solver that relate several of its steps.

use vstd::prelude::*;

use crate::element::{all_values, lemma_all_values_finite, CellView};
use crate::model::{
    clue_cell,
    apart, lemma_member, member,
    clues_valid, complete, consistent, count_open, excludes_peers, final_within, is_cell,
    lemma_coords, lemma_scan_upto_fixed, load, peers, place, round, run, scan, scan_fixed, sound,
    Group, NUM_ELEMENTS,
};
use crate::parse::{
    dec_value, digits, digits_of, field_result, is_placeholder, is_space, line_from, number_of,
    parse_from, parse_text, split_acc, words, Clue,
};
use crate::render::{
    cell_char, digit_chars, render_from, render_text, row_from,
};

verus! {

/// Uniqueness: in a grid the solver built, where no cell has run out of
/// candidates, no two cells that share a row, a column or a block are final
/// with the same value.
pub proof fn lemma_unique_finals(g: Seq<crate::element::CellView>, i: int, j: int)
    requires
        sound(g),
        consistent(g),
        is_cell(i),
        is_cell(j),
        peers(i, j),
        g[i].is_final(),
        g[j].is_final(),
    ensures
        g[i].resolved != g[j].resolved,
{
    if g[i].resolved == g[j].resolved {
        let v = g[i].resolved.unwrap();
        assert(final_within(g));
        assert(g[j].possible.subset_of(set![v]));
        assert(g[j].possible != Set::<usize>::empty());
        let w = g[j].possible.choose();
        assert(g[j].possible.contains(w)) by {
            crate::element::lemma_wf_finite(g[j]);
            vstd::set_lib::lemma_set_empty_equivalency_len(g[j].possible);
        }
        assert(w == v);
        assert(excludes_peers(g));
        assert(!g[i].possible.contains(v));
        assert(g[i].possible.subset_of(set![v]));
        assert(g[i].possible =~= Set::<usize>::empty());
    }
}

/// Uniqueness, in general: where the final values of a grid are apart —
/// after loading clues that agree, and after every round of solving from
/// such a grid — no two cells that share a row, a column or a block are
/// final with the same value.
pub proof fn lemma_apart_unique(g: Seq<CellView>, i: int, j: int)
    requires
        apart(g),
        is_cell(i),
        is_cell(j),
        peers(i, j),
        g[i].is_final(),
        g[j].is_final(),
    ensures
        g[i].resolved != g[j].resolved,
{
    reveal(apart);
}

/// A complete grid whose final values are apart holds each value exactly
/// once in every row, column and block.
pub proof fn lemma_complete_groups(g: Seq<CellView>, k: Group, i: int, v: usize)
    requires
        sound(g),
        complete(g),
        apart(g),
        is_cell(i),
        v < 9,
    ensures
        exists|t: int| 0 <= t < 9 && #[trigger] g[member(k, i, t)].resolved == Some(v),
        forall|t1: int, t2: int|
            0 <= t1 < 9 && 0 <= t2 < 9 && #[trigger] g[member(k, i, t1)].resolved == Some(v)
                && #[trigger] g[member(k, i, t2)].resolved == Some(v) ==> t1 == t2,
{
    reveal(apart);
    let vals = Seq::new(9, |t: int| g[member(k, i, t)].resolved.unwrap());
    assert forall|t1: int, t2: int|
        0 <= t1 < 9 && 0 <= t2 < 9 && t1 != t2 implies g[member(k, i, t1)].resolved != g[member(
            k,
            i,
            t2,
        )].resolved by {
        lemma_member(k, i, t1);
        lemma_member(k, i, t2);
        assert(peers(member(k, i, t1), member(k, i, t2)));
    }
    assert(vals.no_duplicates()) by {
        assert forall|t1: int, t2: int|
            0 <= t1 < vals.len() && 0 <= t2 < vals.len() && t1 != t2 implies vals[t1] != vals[t2] by {
            lemma_member(k, i, t1);
            lemma_member(k, i, t2);
            assert(g[member(k, i, t1)].is_final());
            assert(g[member(k, i, t2)].is_final());
        }
    }
    vals.unique_seq_to_set();
    assert(vals.to_set().subset_of(all_values())) by {
        assert forall|x: usize| vals.to_set().contains(x) implies all_values().contains(x) by {
            let t = choose|t: int| 0 <= t < vals.len() && vals[t] == x;
            lemma_member(k, i, t);
            assert(g[member(k, i, t)].wf());
        }
    }
    lemma_all_values_finite();
    vstd::set_lib::lemma_set_subset_finite(all_values(), vals.to_set());
    vstd::set_lib::lemma_subset_equality(vals.to_set(), all_values());
    assert(vals.to_set().contains(v));
    let t = choose|t: int| 0 <= t < vals.len() && vals[t] == v;
    lemma_member(k, i, t);
    assert(g[member(k, i, t)].resolved == Some(v));
    assert forall|t1: int, t2: int|
        0 <= t1 < 9 && 0 <= t2 < 9 && #[trigger] g[member(k, i, t1)].resolved == Some(v)
            && #[trigger] g[member(k, i, t2)].resolved == Some(v) implies t1 == t2 by {
        if t1 != t2 {
            lemma_member(k, i, t1);
            lemma_member(k, i, t2);
            assert(peers(member(k, i, t1), member(k, i, t2)));
        }
    }
}

proof fn lemma_load_len(clues: Seq<Clue>)
    ensures
        load(clues).len() == NUM_ELEMENTS,
    decreases clues.len(),
{
    if clues.len() > 0 {
        lemma_load_len(clues.drop_last());
    }
}

proof fn lemma_duplicate_prefix(clues: Seq<Clue>, s: int, t: int, n: int)
    requires
        clues_valid(clues),
        0 <= s < t < clues.len(),
        peers(clue_cell(clues[s]), clue_cell(clues[t])),
        clues[s].2 == clues[t].2,
        forall|u: int| s < u < clues.len() ==> clue_cell(#[trigger] clues[u]) != clue_cell(clues[s]),
        s < n <= clues.len(),
    ensures
        ({
            let c = load(clues.take(n))[clue_cell(clues[s])];
            let v = (clues[s].2 - 1) as usize;
            &&& c.resolved == Some(v)
            &&& c.possible.subset_of(set![v])
            &&& (n > t ==> !c.possible.contains(v))
        }),
    decreases n,
{
    let cs = clues.take(n);
    let d = clues[n - 1];
    assert(cs.drop_last() =~= clues.take(n - 1));
    assert(cs.last() == d);
    lemma_coords(d.0 as int, d.1 as int);
    lemma_coords(clues[s].0 as int, clues[s].1 as int);
    let i = clue_cell(clues[s]);
    let v = (clues[s].2 - 1) as usize;
    let h = load(clues.take(n - 1));
    lemma_load_len(clues.take(n - 1));
    assert(load(cs) == place(h, clue_cell(d), (d.2 - 1) as usize));
    if n == s + 1 {
        assert(load(cs)[i] == CellView::fixed(v));
    } else {
        lemma_duplicate_prefix(clues, s, t, n - 1);
        assert(clue_cell(d) != i);
        if n - 1 == t {
            assert(peers(clue_cell(d), i));
            assert(load(cs)[i] == h[i].without(v));
        }
        assert(load(cs)[i].resolved == h[i].resolved);
        assert(load(cs)[i].possible.subset_of(h[i].possible));
    }
}

/// A repeated clue leaves a trace: when two clues on cells that share a
/// row, a column or a block give the same value, and no later clue names
/// the first of those cells again, the loaded grid leaves that cell final
/// with no candidate at all.
pub proof fn lemma_duplicate_empties(clues: Seq<Clue>, s: int, t: int)
    requires
        clues_valid(clues),
        0 <= s < t < clues.len(),
        peers(clue_cell(clues[s]), clue_cell(clues[t])),
        clues[s].2 == clues[t].2,
        forall|u: int| s < u < clues.len() ==> clue_cell(#[trigger] clues[u]) != clue_cell(clues[s]),
    ensures
        load(clues)[clue_cell(clues[s])].possible == Set::<usize>::empty(),
        load(clues)[clue_cell(clues[s])].is_final(),
        !consistent(load(clues)),
{
    lemma_duplicate_prefix(clues, s, t, clues.len() as int);
    assert(clues.take(clues.len() as int) =~= clues);
    let v = (clues[s].2 - 1) as usize;
    let c = load(clues)[clue_cell(clues[s])];
    assert(c.possible =~= Set::<usize>::empty());
    lemma_coords(clues[s].0 as int, clues[s].1 as int);
}

/// A scan of any kind on a grid where no cell is a hidden single of that
/// kind finalizes nothing: the grid stays as it is.
pub proof fn lemma_scan_idempotent(g: Seq<crate::element::CellView>, k: Group)
    requires
        scan_fixed(g, k),
    ensures
        scan(g, k) == g,
        count_open(scan(g, k)) == count_open(g),
{
    lemma_scan_upto_fixed(g, k, NUM_ELEMENTS as nat);
}

/// The clues that write down a complete grid: every cell, row-major, with
/// its value from 1.
pub open spec fn clues_of(g: Seq<CellView>) -> Seq<Clue> {
    Seq::new(
        NUM_ELEMENTS as nat,
        |i: int| ((i / 9) as usize, (i % 9) as usize, (g[i].resolved.unwrap() + 1) as usize),
    )
}

/// A final cell of a consistent grid has its value as only candidate.
pub proof fn lemma_final_fixed(g: Seq<CellView>, i: int)
    requires
        sound(g),
        consistent(g),
        is_cell(i),
        g[i].is_final(),
    ensures
        g[i] == CellView::fixed(g[i].resolved.unwrap()),
        g[i].resolved.unwrap() < 9,
{
    let v = g[i].resolved.unwrap();
    assert(g[i].wf());
    assert(g[i].possible.subset_of(set![v]));
    assert(g[i].possible != Set::<usize>::empty());
    if !g[i].possible.contains(v) {
        assert(g[i].possible =~= Set::<usize>::empty());
    }
    assert(g[i].possible =~= set![v]);
}

proof fn lemma_digit(v: int)
    requires
        0 <= v < 9,
    ensures
        digit_chars()[v] as u32 == 49 + v,
        !is_space(digit_chars()[v]),
        digit_chars()[v] != 'X',
        digit_chars()[v] != 'x',
        digit_chars()[v] != '+',
{
    assert('1' as u32 == 49);
    assert('2' as u32 == 50);
    assert('3' as u32 == 51);
    assert('4' as u32 == 52);
    assert('5' as u32 == 53);
    assert('6' as u32 == 54);
    assert('7' as u32 == 55);
    assert('8' as u32 == 56);
    assert('9' as u32 == 57);
    assert('X' as u32 == 88);
    assert('x' as u32 == 120);
    assert('+' as u32 == 43);
}

proof fn lemma_split_token(c: char, rest: Seq<char>)
    requires
        !is_space(c),
    ensures
        split_acc(seq![c, ' '] + rest, seq![]) == seq![seq![c]] + split_acc(rest, seq![]),
{
    let s = seq![c, ' '] + rest;
    assert(s[0] == c);
    assert(s.drop_first() =~= seq![' '] + rest);
    let t = seq![' '] + rest;
    assert(t[0] == ' ');
    assert(' ' as u32 == 32);
    assert(t.drop_first() =~= rest);
    assert(seq![].push(c) =~= seq![c]);
    assert(split_acc(s, seq![]) == split_acc(t, seq![c]));
    assert(split_acc(t, seq![c]) == seq![seq![c]] + split_acc(rest, seq![]));
}

proof fn lemma_split_spaces(rest: Seq<char>)
    ensures
        split_acc(seq![' ', ' '] + rest, seq![]) == split_acc(rest, seq![]),
{
    let s = seq![' ', ' '] + rest;
    assert(' ' as u32 == 32);
    assert(s[0] == ' ');
    assert(s.drop_first() =~= seq![' '] + rest);
    let t = seq![' '] + rest;
    assert(t[0] == ' ');
    assert(t.drop_first() =~= rest);
    assert(seq![] + split_acc(rest, seq![]) =~= split_acc(rest, seq![]));
    assert(seq![] + split_acc(t, seq![]) =~= split_acc(t, seq![]));
}

/// The words of a rendered row of a complete grid: one digit per cell.
proof fn lemma_row_words(g: Seq<CellView>, r: int, j: int)
    requires
        sound(g),
        complete(g),
        0 <= r < 9,
        0 <= j <= 9,
    ensures
        words(row_from(g, r, j)) == Seq::new((9 - j) as nat, |t: int| seq![cell_char(g[r * 9 + j + t])]),
    decreases 9 - j,
{
    if j == 9 {
        assert(words(row_from(g, r, j)) =~= Seq::new((9 - j) as nat, |t: int| seq![cell_char(g[r * 9 + j + t])]));
    } else {
        lemma_row_words(g, r, j + 1);
        lemma_coords(r, j);
        let i = r * 9 + j;
        assert(g[i].wf());
        let v = g[i].resolved.unwrap();
        lemma_digit(v as int);
        let c = cell_char(g[i]);
        let pad = if j % 3 == 2 {
            seq![' ', ' ']
        } else {
            seq![]
        };
        let rest = row_from(g, r, j + 1);
        assert(row_from(g, r, j) =~= seq![c, ' '] + (pad + rest));
        lemma_split_token(c, pad + rest);
        if j % 3 == 2 {
            lemma_split_spaces(rest);
        } else {
            assert(pad + rest =~= rest);
        }
        assert(words(row_from(g, r, j)) =~= Seq::new((9 - j) as nat, |t: int| seq![cell_char(g[r * 9 + j + t])]));
    }
}

/// A rendered row of a complete grid reads back as the clues of that row.
proof fn lemma_row_clues(g: Seq<CellView>, li: int, r: int, j: int, acc: Seq<Clue>)
    requires
        sound(g),
        complete(g),
        consistent(g),
        0 <= r < 9,
        0 <= j <= 9,
        0 <= li,
    ensures
        line_from(words(row_from(g, r, 0)), li, r, j, acc) == Ok::<Seq<Clue>, crate::parse::ParseError>(
            acc + clues_of(g).subrange(r * 9 + j, r * 9 + 9),
        ),
    decreases 9 - j,
{
    lemma_row_words(g, r, 0);
    let w = words(row_from(g, r, 0));
    if j == 9 {
        assert(acc + clues_of(g).subrange(r * 9 + j, r * 9 + 9) =~= acc);
    } else {
        lemma_coords(r, j);
        let i = r * 9 + j;
        assert(g[i].wf());
        let v = g[i].resolved.unwrap();
        lemma_digit(v as int);
        let d = cell_char(g[i]);
        assert(w[j] == seq![d]);
        assert(!is_placeholder(seq![d])) by {
            if seq![d] == seq!['X'] || seq![d] == seq!['x'] {
                assert(seq![d][0] == d);
            }
        }
        assert(digits_of(seq![d]) == seq![d]);
        assert(d == digit_chars()[v as int]);
        assert(seq![d].drop_last() =~= Seq::<char>::empty());
        assert(seq![d].last() == d);
        assert(dec_value(Seq::<char>::empty()) == 0);
        assert(dec_value(seq![d]) == dec_value(seq![d].drop_last()) * 10 + ((d as u32) - 48) as nat);
        assert(dec_value(seq![d]) == v + 1);
        assert(digits(seq![d]));
        assert(number_of(seq![d]) == Some((v + 1) as nat));
        let clue = (r as usize, j as usize, (v + 1) as usize);
        assert(field_result(w[j], li, r, j) == Ok::<Option<Clue>, crate::parse::ParseError>(Some(clue)));
        lemma_row_clues(g, li, r, j + 1, acc.push(clue));
        assert(clues_of(g)[i] == clue);
        assert(acc.push(clue) + clues_of(g).subrange(r * 9 + j + 1, r * 9 + 9) =~= acc + clues_of(
            g,
        ).subrange(r * 9 + j, r * 9 + 9));
    }
}

proof fn lemma_parse_row(g: Seq<CellView>, text: Seq<Seq<char>>, li: int, r: int)
    requires
        sound(g),
        complete(g),
        consistent(g),
        0 <= r < 9,
        0 <= li < text.len(),
        text[li] == row_from(g, r, 0),
    ensures
        parse_from(text, li, r, clues_of(g).take(r * 9)) == parse_from(
            text,
            li + 1,
            r + 1,
            clues_of(g).take(r * 9 + 9),
        ),
{
    lemma_row_words(g, r, 0);
    lemma_row_clues(g, li, r, 0, clues_of(g).take(r * 9));
    assert(clues_of(g).take(r * 9) + clues_of(g).subrange(r * 9, r * 9 + 9) =~= clues_of(g).take(
        r * 9 + 9,
    ));
}

proof fn lemma_parse_blank(text: Seq<Seq<char>>, li: int, r: int, acc: Seq<Clue>)
    requires
        0 <= li < text.len(),
        text[li] == Seq::<char>::empty(),
    ensures
        parse_from(text, li, r, acc) == parse_from(text, li + 1, r, acc),
{
    assert(words(text[li]) == Seq::<Seq<char>>::empty());
}

proof fn lemma_render_lines(g: Seq<CellView>)
    ensures
        render_text(g) == seq![
            row_from(g, 0, 0),
            row_from(g, 1, 0),
            row_from(g, 2, 0),
            Seq::<char>::empty(),
            row_from(g, 3, 0),
            row_from(g, 4, 0),
            row_from(g, 5, 0),
            Seq::<char>::empty(),
            row_from(g, 6, 0),
            row_from(g, 7, 0),
            row_from(g, 8, 0),
        ],
{
    reveal_with_fuel(render_from, 10);
    assert(render_text(g) =~= seq![
        row_from(g, 0, 0),
        row_from(g, 1, 0),
        row_from(g, 2, 0),
        Seq::<char>::empty(),
        row_from(g, 3, 0),
        row_from(g, 4, 0),
        row_from(g, 5, 0),
        Seq::<char>::empty(),
        row_from(g, 6, 0),
        row_from(g, 7, 0),
        row_from(g, 8, 0),
    ]);
}

/// Loading the clues of a complete, consistent grid gives that grid back,
/// cell by cell for the first `n` clues.
proof fn lemma_load_prefix(g: Seq<CellView>, n: int)
    requires
        sound(g),
        complete(g),
        consistent(g),
        0 <= n <= NUM_ELEMENTS,
    ensures
        load(clues_of(g).take(n)).len() == NUM_ELEMENTS,
        forall|i: int| 0 <= i < n ==> #[trigger] load(clues_of(g).take(n))[i] == g[i],
    decreases n,
{
    let cs = clues_of(g).take(n);
    if n == 0 {
    } else {
        lemma_load_prefix(g, n - 1);
        assert(cs.drop_last() =~= clues_of(g).take(n - 1));
        let h = load(clues_of(g).take(n - 1));
        let k = n - 1;
        lemma_coords(k / 9, k % 9);
        lemma_final_fixed(g, k);
        let v = g[k].resolved.unwrap();
        assert(cs.last() == ((k / 9) as usize, (k % 9) as usize, (v + 1) as usize));
        assert(load(cs) == place(h, k, v));
        assert forall|i: int| 0 <= i < n implies #[trigger] load(cs)[i] == g[i] by {
            if i < k {
                lemma_final_fixed(g, i);
                if peers(k, i) {
                    lemma_unique_finals(g, i, k);
                    let w = g[i].resolved.unwrap();
                    assert(set![w].remove(v) =~= set![w]);
                }
            }
        }
    }
}

/// Round trip: a complete, consistent grid written as text reads back as
/// the clues of every cell, and loading those clues gives the same grid,
/// which the solver then leaves as it is, with no round run.
pub proof fn lemma_round_trip(g: Seq<CellView>)
    requires
        sound(g),
        complete(g),
        consistent(g),
    ensures
        parse_text(render_text(g)) == Ok::<Seq<Clue>, crate::parse::ParseError>(clues_of(g)),
        clues_valid(clues_of(g)),
        load(clues_of(g)) == g,
        run(load(clues_of(g)), NUM_ELEMENTS as nat) == (g, 0nat),
{
    let text = render_text(g);
    lemma_render_lines(g);
    assert(clues_of(g).take(0) =~= seq![]);
    lemma_parse_row(g, text, 0, 0);
    lemma_parse_row(g, text, 1, 1);
    lemma_parse_row(g, text, 2, 2);
    lemma_parse_blank(text, 3, 3, clues_of(g).take(27));
    lemma_parse_row(g, text, 4, 3);
    lemma_parse_row(g, text, 5, 4);
    lemma_parse_row(g, text, 6, 5);
    lemma_parse_blank(text, 7, 6, clues_of(g).take(54));
    lemma_parse_row(g, text, 8, 6);
    lemma_parse_row(g, text, 9, 7);
    lemma_parse_row(g, text, 10, 8);
    assert(clues_of(g).take(81) =~= clues_of(g));
    assert forall|t: int| 0 <= t < clues_of(g).len() implies {
        let c = #[trigger] clues_of(g)[t];
        c.0 < 9 && c.1 < 9 && 1 <= c.2 <= 9
    } by {
        lemma_final_fixed(g, t);
    }
    lemma_load_prefix(g, NUM_ELEMENTS as int);
    assert(load(clues_of(g)) =~= g);
}

} // verus!
