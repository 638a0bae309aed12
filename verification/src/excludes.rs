//! Exclude patterns handed to rsync: the global defaults and each pair's own.
use vstd::prelude::*;
use crate::text::{find_char, lines, push_char, strip_cr};

verus! {

/// Patterns that every sync excludes; the user cannot switch them off.
pub const DEFAULT_EXCLUDES: [&'static str; 7] = [
    ".DS_Store",
    ".Spotlight-V100",
    ".Trashes",
    ".fseventsd",
    ".TemporaryItems",
    "._*",
    ".rsync-partial/",
];

/// The default exclude patterns as character sequences.
pub open spec fn default_excludes() -> Seq<Seq<char>> {
    seq![
        ".DS_Store"@,
        ".Spotlight-V100"@,
        ".Trashes"@,
        ".fseventsd"@,
        ".TemporaryItems"@,
        "._*"@,
        ".rsync-partial/"@,
    ]
}

/// `s` with every repeated entry after its first occurrence removed.
pub open spec fn dedup(s: Seq<Seq<char>>) -> Seq<Seq<char>>
    decreases s.len(),
{
    if s.len() == 0 {
        seq![]
    } else {
        let d = dedup(s.drop_last());
        if d.contains(s.last()) {
            d
        } else {
            d.push(s.last())
        }
    }
}

/// The defaults followed by the per-pair patterns, each pattern kept once,
/// at its first position.
pub open spec fn merged_spec(per_pair: Seq<Seq<char>>) -> Seq<Seq<char>> {
    dedup(default_excludes() + per_pair)
}

/// Combine the global default excludes with per-pair excludes,
/// preserving order and deduplicating exact matches.
pub fn merged_excludes(per_pair: &[String]) -> (out: Vec<String>)
    ensures
        out.deep_view() == merged_spec(per_pair.deep_view()),
{
    let mut out: Vec<String> = Vec::new();
    let mut k: usize = 0;
    while k < 7
        invariant
            k <= 7,
            out@.len() == k,
            default_excludes().len() == 7,
            out.deep_view() == default_excludes().take(k as int),
        decreases 7 - k,
    {
        let pat = DEFAULT_EXCLUDES[k];
        assert(pat@ == default_excludes()[k as int]);
        let ghost prev = out@;
        let owned = String::from_str(pat);
        out.push(owned);
        assert(out@ == prev.push(owned));
        assert(out.deep_view().len() == k + 1);
        assert forall|m: int| 0 <= m < k + 1 implies out.deep_view()[m] == default_excludes().take(
            k + 1,
        )[m] by {
            if m < k {
                assert(out.deep_view()[m] == out@[m]@);
                assert(prev[m]@ == default_excludes().take(k as int)[m]);
            }
        }
        assert(out.deep_view() =~= default_excludes().take(k + 1));
        k = k + 1;
    }
    proof {
        lemma_defaults_distinct();
        lemma_dedup_distinct(default_excludes());
        assert(default_excludes().take(7) =~= default_excludes());
        assert(default_excludes() + per_pair.deep_view().take(0) =~= default_excludes());
    }
    let mut i: usize = 0;
    while i < per_pair.len()
        invariant
            i <= per_pair@.len(),
            out.deep_view() == merged_spec(per_pair.deep_view().take(i as int)),
        decreases per_pair@.len() - i,
    {
        let e = &per_pair[i];
        let mut found = false;
        let mut j: usize = 0;
        while j < out.len()
            invariant
                j <= out@.len(),
                found == out.deep_view().take(j as int).contains(e@),
            decreases out@.len() - j,
        {
            if out[j] == *e {
                found = true;
                assert(out.deep_view().take(j + 1)[j as int] == e@);
            }
            proof {
                broadcast use vstd::seq_lib::lemma_seq_contains_after_push;
            }
            assert(out.deep_view().take(j + 1) =~= out.deep_view().take(j as int).push(
                out[j as int]@,
            ));
            j = j + 1;
        }
        assert(out.deep_view().take(j as int) =~= out.deep_view());
        let ghost before = out.deep_view();
        if !found {
            out.push(e.clone());
        }
        proof {
            let s = default_excludes() + per_pair.deep_view().take(i + 1);
            assert(s.drop_last() =~= default_excludes() + per_pair.deep_view().take(i as int));
            assert(s.last() == e@);
        }
        assert(out.deep_view() =~= merged_spec(per_pair.deep_view().take(i + 1)));
        i = i + 1;
    }
    assert(per_pair.deep_view().take(i as int) =~= per_pair.deep_view());
    out
}

/// No entry occurs twice.
pub open spec fn distinct(s: Seq<Seq<char>>) -> bool {
    forall|i: int, j: int| 0 <= i < j < s.len() ==> s[i] != s[j]
}

proof fn lemma_defaults_distinct()
    ensures
        distinct(default_excludes()),
{
    reveal_strlit(".DS_Store");
    reveal_strlit(".Spotlight-V100");
    reveal_strlit(".Trashes");
    reveal_strlit(".fseventsd");
    reveal_strlit(".TemporaryItems");
    reveal_strlit("._*");
    reveal_strlit(".rsync-partial/");
    let d = default_excludes();
    assert forall|i: int, j: int| 0 <= i < j < d.len() implies d[i] != d[j] by {
        if d[i] == d[j] {
            assert(d[i].len() == d[j].len());
            assert(d[i][1] == d[j][1]);
        }
    }
}

/// `dedup` leaves a sequence without repeats as it is.
pub proof fn lemma_dedup_distinct(s: Seq<Seq<char>>)
    requires
        distinct(s),
    ensures
        dedup(s) == s,
    decreases s.len(),
{
    if s.len() > 0 {
        assert(distinct(s.drop_last()));
        lemma_dedup_distinct(s.drop_last());
        if s.drop_last().contains(s.last()) {
            let k = choose|k: int| 0 <= k < s.drop_last().len() && s.drop_last()[k] == s.last();
            assert(s[k] == s[s.len() - 1]);
        }
        assert(s.drop_last().push(s.last()) =~= s);
    }
}


proof fn lemma_concat_drop_last(s: Seq<Seq<char>>, t: Seq<Seq<char>>)
    requires
        t.len() > 0,
    ensures
        (s + t).drop_last() == s + t.drop_last(),
        (s + t).last() == t.last(),
{
    assert((s + t).drop_last() =~= s + t.drop_last());
}

/// An entry is kept by `dedup` exactly when it occurs in the input.
pub proof fn lemma_dedup_contains(s: Seq<Seq<char>>, x: Seq<char>)
    ensures
        dedup(s).contains(x) <==> s.contains(x),
    decreases s.len(),
{
    if s.len() > 0 {
        lemma_dedup_contains(s.drop_last(), x);
        lemma_dedup_contains(s.drop_last(), s.last());
        if s.contains(x) {
            let k = choose|k: int| 0 <= k < s.len() && s[k] == x;
            if k < s.len() - 1 {
                assert(s.drop_last()[k] == x);
            }
        }
        if s.drop_last().contains(x) {
            let k = choose|k: int| 0 <= k < s.drop_last().len() && s.drop_last()[k] == x;
            assert(s[k] == x);
        }
        let d = dedup(s.drop_last());
        if !d.contains(s.last()) {
            assert(d.push(s.last())[d.len() as int] == s.last());
            if d.push(s.last()).contains(x) && x != s.last() {
                let k = choose|k: int| 0 <= k < d.push(s.last()).len() && d.push(s.last())[k] == x;
                assert(d[k] == x);
            }
            if d.contains(x) {
                let k = choose|k: int| 0 <= k < d.len() && d[k] == x;
                assert(d.push(s.last())[k] == x);
            }
        }
        assert(s[s.len() - 1] == s.last());
    }
}

/// `dedup` never yields a repeated entry.
pub proof fn lemma_dedup_no_repeats(s: Seq<Seq<char>>)
    ensures
        distinct(dedup(s)),
    decreases s.len(),
{
    if s.len() > 0 {
        lemma_dedup_no_repeats(s.drop_last());
        let d = dedup(s.drop_last());
        if !d.contains(s.last()) {
            let e = d.push(s.last());
            assert forall|i: int, j: int| 0 <= i < j < e.len() implies e[i] != e[j] by {
                if j == d.len() {
                    assert(d[i] == e[i]);
                }
            }
        }
    }
}

/// `dedup(s)` is a prefix of `dedup(s + t)`.
pub proof fn lemma_dedup_prefix(s: Seq<Seq<char>>, t: Seq<Seq<char>>)
    ensures
        dedup(s).len() <= dedup(s + t).len(),
        dedup(s + t).take(dedup(s).len() as int) == dedup(s),
    decreases t.len(),
{
    if t.len() == 0 {
        assert(s + t =~= s);
        assert(dedup(s).take(dedup(s).len() as int) =~= dedup(s));
    } else {
        lemma_concat_drop_last(s, t);
        lemma_dedup_prefix(s, t.drop_last());
        let d = dedup(s + t.drop_last());
        assert(d.push(t.last()).take(dedup(s).len() as int) =~= d.take(dedup(s).len() as int));
    }
}

/// Appending entries that already occur changes nothing.
pub proof fn lemma_dedup_absorb(s: Seq<Seq<char>>, t: Seq<Seq<char>>)
    requires
        forall|i: int| 0 <= i < t.len() ==> s.contains(#[trigger] t[i]),
    ensures
        dedup(s + t) == dedup(s),
    decreases t.len(),
{
    if t.len() == 0 {
        assert(s + t =~= s);
    } else {
        lemma_concat_drop_last(s, t);
        lemma_dedup_absorb(s, t.drop_last());
        assert(s.contains(t[t.len() - 1]));
        lemma_dedup_contains(s, t.last());
    }
}

/// `dedup(s + t)` depends on `s` only through `dedup(s)`.
pub proof fn lemma_dedup_left(s: Seq<Seq<char>>, t: Seq<Seq<char>>)
    ensures
        dedup(s + t) == dedup(dedup(s) + t),
    decreases t.len(),
{
    if t.len() == 0 {
        assert(s + t =~= s);
        assert(dedup(s) + t =~= dedup(s));
        lemma_dedup_no_repeats(s);
        lemma_dedup_distinct(dedup(s));
    } else {
        lemma_concat_drop_last(s, t);
        lemma_concat_drop_last(dedup(s), t);
        lemma_dedup_left(s, t.drop_last());
    }
}

/// Law: the merged list starts with every default pattern, in order.
pub proof fn lemma_merged_starts_with_defaults(per_pair: Seq<Seq<char>>)
    ensures
        merged_spec(per_pair).len() >= default_excludes().len(),
        merged_spec(per_pair).take(default_excludes().len() as int) == default_excludes(),
{
    lemma_defaults_distinct();
    lemma_dedup_distinct(default_excludes());
    lemma_dedup_prefix(default_excludes(), per_pair);
}

/// Law: a pattern is in the merged list exactly when it is a default or one
/// of the pair's own patterns.
pub proof fn lemma_merged_contents(per_pair: Seq<Seq<char>>, x: Seq<char>)
    ensures
        merged_spec(per_pair).contains(x) <==> (default_excludes().contains(x)
            || per_pair.contains(x)),
{
    let s = default_excludes() + per_pair;
    lemma_dedup_contains(s, x);
    if s.contains(x) {
        let k = choose|k: int| 0 <= k < s.len() && s[k] == x;
        if k >= default_excludes().len() {
            assert(per_pair[k - default_excludes().len()] == x);
        } else {
            assert(default_excludes()[k] == x);
        }
    }
    if default_excludes().contains(x) {
        let k = choose|k: int| 0 <= k < default_excludes().len() && default_excludes()[k] == x;
        assert(s[k] == x);
    }
    if per_pair.contains(x) {
        let k = choose|k: int| 0 <= k < per_pair.len() && per_pair[k] == x;
        assert(s[k + default_excludes().len()] == x);
    }
}

/// Law: no pattern occurs twice in the merged list.
pub proof fn lemma_merged_no_duplicates(per_pair: Seq<Seq<char>>)
    ensures
        distinct(merged_spec(per_pair)),
{
    lemma_dedup_no_repeats(default_excludes() + per_pair);
}

/// Law: merging the merged list again gives it back unchanged.
pub proof fn lemma_merged_idempotent(per_pair: Seq<Seq<char>>)
    ensures
        merged_spec(merged_spec(per_pair)) == merged_spec(per_pair),
{
    let d = default_excludes();
    let m = merged_spec(per_pair);
    lemma_merged_starts_with_defaults(per_pair);
    let r = m.skip(d.len() as int);
    assert(m =~= d + r);
    assert(d + m =~= (d + d) + r);
    lemma_defaults_distinct();
    lemma_dedup_distinct(d);
    assert forall|i: int| 0 <= i < d.len() implies d.contains(#[trigger] d[i]) by {}
    lemma_dedup_absorb(d, d);
    lemma_dedup_left(d + d, r);
    lemma_dedup_left(d, r);
    lemma_merged_no_duplicates(per_pair);
    lemma_dedup_distinct(m);
}


/// The pair's own patterns that the merge adds after the defaults: each one
/// that is not a default, at its first occurrence, in input order.
pub open spec fn fresh_patterns(per_pair: Seq<Seq<char>>) -> Seq<Seq<char>>
    decreases per_pair.len(),
{
    if per_pair.len() == 0 {
        seq![]
    } else {
        let f = fresh_patterns(per_pair.drop_last());
        let x = per_pair.last();
        if default_excludes().contains(x) || per_pair.drop_last().contains(x) {
            f
        } else {
            f.push(x)
        }
    }
}

/// Law: the merged list is the defaults followed by the pair's new
/// patterns, each once, at its first occurrence, in input order.
pub proof fn lemma_merged_is_defaults_then_fresh(per_pair: Seq<Seq<char>>)
    ensures
        merged_spec(per_pair) == default_excludes() + fresh_patterns(per_pair),
    decreases per_pair.len(),
{
    let d = default_excludes();
    if per_pair.len() == 0 {
        assert(d + per_pair =~= d);
        lemma_defaults_distinct();
        lemma_dedup_distinct(d);
        assert(d + fresh_patterns(per_pair) =~= d);
    } else {
        let front = per_pair.drop_last();
        let x = per_pair.last();
        lemma_merged_is_defaults_then_fresh(front);
        lemma_concat_drop_last(d, per_pair);
        lemma_merged_contents(front, x);
        assert((d + fresh_patterns(front)).push(x) =~= d + fresh_patterns(front).push(x));
    }
}

/// Each entry followed by a newline, all joined.
pub open spec fn lines_text(ls: Seq<Seq<char>>) -> Seq<char>
    decreases ls.len(),
{
    if ls.len() == 0 {
        seq![]
    } else {
        lines_text(ls.drop_last()) + ls.last().push('\n')
    }
}

/// The contents of the exclude file that rsync reads with `--exclude-from`:
/// one merged pattern per line.
pub fn excludes_file_text(per_pair: &[String]) -> (r: String)
    ensures
        r@ == lines_text(merged_spec(per_pair.deep_view())),
{
    let merged = merged_excludes(per_pair);
    let mut r = String::new();
    let mut i: usize = 0;
    while i < merged.len()
        invariant
            i <= merged@.len(),
            r@ == lines_text(merged.deep_view().take(i as int)),
        decreases merged@.len() - i,
    {
        r.append(merged[i].as_str());
        push_char(&mut r, '\n');
        assert(merged.deep_view().take(i + 1).drop_last() =~= merged.deep_view().take(i as int));
        i = i + 1;
    }
    assert(merged.deep_view().take(i as int) =~= merged.deep_view());
    r
}


proof fn lemma_lines_text_first(ls: Seq<Seq<char>>)
    requires
        ls.len() > 0,
    ensures
        lines_text(ls) == ls[0].push('\n') + lines_text(ls.drop_first()),
    decreases ls.len(),
{
    if ls.len() == 1 {
        assert(ls.drop_last() =~= Seq::<Seq<char>>::empty());
        assert(ls.drop_first() =~= Seq::<Seq<char>>::empty());
        assert(lines_text(ls) =~= ls[0].push('\n') + lines_text(ls.drop_first()));
    } else {
        lemma_lines_text_first(ls.drop_last());
        assert(ls.drop_last().drop_first() =~= ls.drop_first().drop_last());
        assert(ls.drop_first().last() == ls.last());
        assert(ls.drop_last()[0] == ls[0]);
        assert(lines_text(ls) =~= ls[0].push('\n') + lines_text(ls.drop_first()));
    }
}

proof fn lemma_find_newline(x: Seq<char>, rest: Seq<char>)
    requires
        !x.contains('\n'),
    ensures
        find_char(x.push('\n') + rest, '\n') == x.len(),
    decreases x.len(),
{
    let w = x.push('\n') + rest;
    if x.len() == 0 {
        assert(w[0] == '\n');
    } else {
        assert(w[0] == x[0]);
        assert(w.drop_first() =~= x.drop_first().push('\n') + rest);
        if x.drop_first().contains('\n') {
            let k = choose|k: int| 0 <= k < x.drop_first().len() && x.drop_first()[k] == '\n';
            assert(x[k + 1] == '\n');
        }
        lemma_find_newline(x.drop_first(), rest);
    }
}

/// An exclude pattern that stays one line of the exclude file: no newline
/// in it, no carriage return at its end.
pub open spec fn is_single_line(e: Seq<char>) -> bool {
    !e.contains('\n') && !(e.len() > 0 && e.last() == '\r')
}

/// Law: reading the exclude file back line by line gives the patterns it
/// was written from, when each is a single line.
pub proof fn lemma_lines_text_round_trip(ls: Seq<Seq<char>>)
    requires
        forall|i: int| 0 <= i < ls.len() ==> is_single_line(#[trigger] ls[i]),
    ensures
        lines(lines_text(ls)) == ls,
    decreases ls.len(),
{
    if ls.len() == 0 {
        assert(lines_text(ls) =~= Seq::<char>::empty());
    } else {
        lemma_lines_text_first(ls);
        let x = ls[0];
        let rest = lines_text(ls.drop_first());
        let t = lines_text(ls);
        assert(is_single_line(ls[0]));
        lemma_find_newline(x, rest);
        assert(t.take(x.len() as int) =~= x);
        assert(t.skip(x.len() + 1 as int) =~= rest);
        assert(strip_cr(x) == x);
        assert forall|i: int| 0 <= i < ls.drop_first().len() implies is_single_line(
            #[trigger] ls.drop_first()[i],
        ) by {
            assert(ls.drop_first()[i] == ls[i + 1]);
        }
        lemma_lines_text_round_trip(ls.drop_first());
        assert(seq![x] + ls.drop_first() =~= ls);
    }
}

} // verus!
