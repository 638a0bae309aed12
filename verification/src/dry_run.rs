//! The dry-run summary described line by line: how many lines of each kind,
//! which file entries, which byte total; how summaries of joined outputs
//! combine; and the check that the counts fit their counters.
use vstd::prelude::*;
use crate::sync::{
    apply_line, counts_fit, dry_run_spec, empty_summary, fold_lines, keep_digits, with_entry,
    SummaryView,
};
use crate::text::{
    chars_of, find_char, has_prefix, has_prefix_at, lemma_find_char_bound, lines,
    next_line, parse_u64_spec, tokens, trim_end_index, trim_end_ws,
};

verus! {

/// The kind of a line of itemized output (trailing whitespace removed):
/// 0 a deletion, 1 a new file, 2 an updated file, 3 the byte total, 4 any
/// other line. The first matching prefix decides.
pub open spec fn line_kind(l: Seq<char>) -> nat {
    if has_prefix(l, "*deleting"@) {
        0
    } else if has_prefix(l, ">f+++++++++"@) {
        1
    } else if has_prefix(l, ">f"@) {
        2
    } else if has_prefix(l, "Total transferred file size:"@) {
        3
    } else {
        4
    }
}

/// The byte total that a total line gives: its digits after the label, or
/// 0 when they do not make a `u64`.
pub open spec fn total_value(l: Seq<char>) -> u64 {
    match parse_u64_spec(keep_digits(l.skip("Total transferred file size:"@.len() as int))) {
        Some(n) => n,
        None => 0,
    }
}

/// How many of the lines, each without its trailing whitespace, are of
/// kind `k`.
pub open spec fn count_kind(ls: Seq<Seq<char>>, k: nat) -> nat
    decreases ls.len(),
{
    if ls.len() == 0 {
        0
    } else {
        (if line_kind(trim_end_ws(ls[0])) == k {
            1nat
        } else {
            0nat
        }) + count_kind(ls.drop_first(), k)
    }
}

/// The file entry of one line: `D `, `+ ` or `M ` and its second word, for
/// a deletion, new file or update that has a second word.
pub open spec fn line_entry(l: Seq<char>) -> Seq<Seq<char>> {
    let k = line_kind(l);
    if k == 0 {
        with_entry(seq![], "D "@, l)
    } else if k == 1 {
        with_entry(seq![], "+ "@, l)
    } else if k == 2 {
        with_entry(seq![], "M "@, l)
    } else {
        seq![]
    }
}

/// The file entries of the lines, in order.
pub open spec fn entries(ls: Seq<Seq<char>>) -> Seq<Seq<char>>
    decreases ls.len(),
{
    if ls.len() == 0 {
        seq![]
    } else {
        line_entry(trim_end_ws(ls[0])) + entries(ls.drop_first())
    }
}

/// The byte total of the last total line, if there is one.
pub open spec fn last_total(ls: Seq<Seq<char>>) -> Option<u64>
    decreases ls.len(),
{
    if ls.len() == 0 {
        None
    } else {
        match last_total(ls.drop_first()) {
            Some(v) => Some(v),
            None => {
                let l = trim_end_ws(ls[0]);
                if line_kind(l) == 3 {
                    Some(total_value(l))
                } else {
                    None
                }
            },
        }
    }
}

/// What a summary becomes once the lines `ls` are applied to it.
pub open spec fn shifted(acc: SummaryView, ls: Seq<Seq<char>>) -> SummaryView {
    SummaryView {
        files_to_delete: acc.files_to_delete + count_kind(ls, 0),
        files_to_copy: acc.files_to_copy + count_kind(ls, 1),
        files_to_update: acc.files_to_update + count_kind(ls, 2),
        total_bytes: match last_total(ls) {
            Some(v) => v,
            None => acc.total_bytes,
        },
        file_list: acc.file_list + entries(ls),
    }
}

proof fn lemma_with_entry_append(list: Seq<Seq<char>>, marker: Seq<char>, l: Seq<char>)
    ensures
        with_entry(list, marker, l) == list + with_entry(seq![], marker, l),
{
    if tokens(l).len() > 1 {
        assert(list.push(marker + tokens(l)[1]) =~= list + seq![].push(marker + tokens(l)[1]));
    } else {
        assert(list + Seq::<Seq<char>>::empty() =~= list);
    }
}

/// Applying lines to a summary adds their counts and entries, and takes
/// their last total when they have one.
pub proof fn lemma_fold_shift(acc: SummaryView, ls: Seq<Seq<char>>)
    ensures
        fold_lines(acc, ls) == shifted(acc, ls),
    decreases ls.len(),
{
    if ls.len() == 0 {
        assert(acc.file_list + Seq::<Seq<char>>::empty() =~= acc.file_list);
        assert(fold_lines(acc, ls) =~= shifted(acc, ls));
    } else {
        let l = trim_end_ws(ls[0]);
        let next = apply_line(acc, l);
        let rest = ls.drop_first();
        lemma_fold_shift(next, rest);
        let k = line_kind(l);
        if k == 0 {
            lemma_with_entry_append(acc.file_list, "D "@, l);
        } else if k == 1 {
            lemma_with_entry_append(acc.file_list, "+ "@, l);
        } else if k == 2 {
            lemma_with_entry_append(acc.file_list, "M "@, l);
        } else {
            assert(next.file_list =~= acc.file_list + line_entry(l));
        }
        assert(next.file_list == acc.file_list + line_entry(l));
        assert(acc.file_list + entries(ls) =~= next.file_list + entries(rest));
        assert(fold_lines(acc, ls) =~= shifted(acc, ls));
    }
}

/// Law: the counts of a dry run are the numbers of deletion, new-file and
/// update lines; its file list holds one entry per such line with a second
/// word, in order; its byte total is that of the last total line, or 0.
pub proof fn lemma_summary_by_kind(s: Seq<char>)
    ensures
        dry_run_spec(s).files_to_delete == count_kind(lines(s), 0),
        dry_run_spec(s).files_to_copy == count_kind(lines(s), 1),
        dry_run_spec(s).files_to_update == count_kind(lines(s), 2),
        dry_run_spec(s).file_list == entries(lines(s)),
        dry_run_spec(s).total_bytes == match last_total(lines(s)) {
            Some(v) => v,
            None => 0,
        },
{
    lemma_fold_shift(empty_summary(), lines(s));
    assert(Seq::<Seq<char>>::empty() + entries(lines(s)) =~= entries(lines(s)));
}

/// Law: a deletion, new-file or update line with a second word gives one
/// file entry, its marker and that word whatever characters it holds; a
/// line with no second word, or of another kind, gives none.
pub proof fn lemma_entry_is_second_word(list: Seq<Seq<char>>, marker: Seq<char>, l: Seq<char>)
    ensures
        tokens(l).len() > 1 ==> with_entry(list, marker, l) == list.push(marker + tokens(l)[1]),
        tokens(l).len() <= 1 ==> with_entry(list, marker, l) == list,
        line_kind(l) == 0 && tokens(l).len() > 1 ==> line_entry(l) == seq!["D "@ + tokens(l)[1]],
        line_kind(l) == 1 && tokens(l).len() > 1 ==> line_entry(l) == seq!["+ "@ + tokens(l)[1]],
        line_kind(l) == 2 && tokens(l).len() > 1 ==> line_entry(l) == seq!["M "@ + tokens(l)[1]],
        line_kind(l) > 2 || tokens(l).len() <= 1 ==> line_entry(l) == Seq::<Seq<char>>::empty(),
{
    if tokens(l).len() > 1 {
        assert(seq![].push("D "@ + tokens(l)[1]) =~= seq!["D "@ + tokens(l)[1]]);
        assert(seq![].push("+ "@ + tokens(l)[1]) =~= seq!["+ "@ + tokens(l)[1]]);
        assert(seq![].push("M "@ + tokens(l)[1]) =~= seq!["M "@ + tokens(l)[1]]);
    }
}

/// Law: the file list of a one-line output is the entry of that line, its
/// trailing whitespace removed.
pub proof fn lemma_one_line_file_list(l: Seq<char>)
    requires
        !l.contains('\n'),
        l.len() > 0,
    ensures
        dry_run_spec(l).file_list == line_entry(trim_end_ws(l)),
{
    lemma_find_char_bound(l, '\n');
    if find_char(l, '\n') < l.len() {
        assert(l[find_char(l, '\n') as int] == '\n');
    }
    assert(lines(l) == seq![l]);
    lemma_summary_by_kind(l);
    let one = seq![l];
    assert(one.drop_first() =~= Seq::<Seq<char>>::empty());
    assert(entries(one.drop_first()) == Seq::<Seq<char>>::empty());
    assert(one[0] == l);
    assert(entries(one) == line_entry(trim_end_ws(l)) + entries(one.drop_first()));
    assert(entries(one) =~= line_entry(trim_end_ws(l)));
}

proof fn lemma_fold_concat(acc: SummaryView, a: Seq<Seq<char>>, b: Seq<Seq<char>>)
    ensures
        fold_lines(acc, a + b) == fold_lines(fold_lines(acc, a), b),
    decreases a.len(),
{
    if a.len() == 0 {
        assert(a + b =~= b);
    } else {
        assert((a + b).drop_first() =~= a.drop_first() + b);
        assert((a + b)[0] == a[0]);
        lemma_fold_concat(apply_line(acc, trim_end_ws(a[0])), a.drop_first(), b);
    }
}

proof fn lemma_find_char_concat(a: Seq<char>, b: Seq<char>, c: char)
    requires
        find_char(a, c) < a.len(),
    ensures
        find_char(a + b, c) == find_char(a, c),
    decreases a.len(),
{
    if a[0] != c {
        assert((a + b).drop_first() =~= a.drop_first() + b);
        lemma_find_char_concat(a.drop_first(), b, c);
    }
}

/// The lines of two texts joined at a line break are the lines of each.
pub proof fn lemma_lines_concat(a: Seq<char>, b: Seq<char>)
    requires
        a.len() == 0 || a.last() == '\n',
    ensures
        lines(a + b) == lines(a) + lines(b),
    decreases a.len(),
{
    if a.len() == 0 {
        assert(a + b =~= b);
        assert(lines(a) + lines(b) =~= lines(b));
    } else {
        lemma_find_char_bound(a, '\n');
        if find_char(a, '\n') >= a.len() {
            assert(a[a.len() - 1] == '\n');
        }
        let i = find_char(a, '\n');
        lemma_find_char_concat(a, b, '\n');
        let rest = a.skip((i + 1) as int);
        assert((a + b).take(i as int) =~= a.take(i as int));
        assert((a + b).skip((i + 1) as int) =~= rest + b);
        if rest.len() > 0 {
            assert(rest.last() == a.last());
        }
        lemma_lines_concat(rest, b);
        assert(lines(a + b) =~= lines(a) + lines(b));
    }
}

/// Law: the summary of two outputs joined at a line break adds their counts,
/// joins their file lists, and takes the second one's byte total when it
/// has a total line, the first one's otherwise.
pub proof fn lemma_summary_concat(a: Seq<char>, b: Seq<char>)
    requires
        a.len() == 0 || a.last() == '\n',
    ensures
        dry_run_spec(a + b).files_to_delete == dry_run_spec(a).files_to_delete + dry_run_spec(
            b,
        ).files_to_delete,
        dry_run_spec(a + b).files_to_copy == dry_run_spec(a).files_to_copy + dry_run_spec(
            b,
        ).files_to_copy,
        dry_run_spec(a + b).files_to_update == dry_run_spec(a).files_to_update + dry_run_spec(
            b,
        ).files_to_update,
        dry_run_spec(a + b).file_list == dry_run_spec(a).file_list + dry_run_spec(b).file_list,
        dry_run_spec(a + b).total_bytes == if last_total(lines(b)) is Some {
            dry_run_spec(b).total_bytes
        } else {
            dry_run_spec(a).total_bytes
        },
{
    lemma_lines_concat(a, b);
    lemma_fold_concat(empty_summary(), lines(a), lines(b));
    lemma_fold_shift(dry_run_spec(a), lines(b));
    lemma_fold_shift(empty_summary(), lines(b));
    assert(Seq::<Seq<char>>::empty() + entries(lines(b)) =~= entries(lines(b)));
}

/// The kind of the line `v[lo..hi]`, as `line_kind` gives it.
fn kind_at(v: &Vec<char>, lo: usize, hi: usize) -> (k: u8)
    requires
        lo <= hi <= v@.len(),
    ensures
        k as nat == line_kind(v@.subrange(lo as int, hi as int)),
{
    let del = chars_of("*deleting");
    let newf = chars_of(">f+++++++++");
    let upd = chars_of(">f");
    let tot = chars_of("Total transferred file size:");
    if has_prefix_at(v, lo, hi, &del) {
        0
    } else if has_prefix_at(v, lo, hi, &newf) {
        1
    } else if has_prefix_at(v, lo, hi, &upd) {
        2
    } else if has_prefix_at(v, lo, hi, &tot) {
        3
    } else {
        4
    }
}

/// Whether the deletion, new-file and update counts of the dry-run output
/// `s` each fit in a `u32`, the counters' type.
pub fn dry_run_counts_fit(s: &str) -> (r: bool)
    ensures
        r == counts_fit(dry_run_spec(s@)),
{
    let v = chars_of(s);
    let n = v.len();
    let mut c0: usize = 0;
    let mut c1: usize = 0;
    let mut c2: usize = 0;
    assert(v@.subrange(0, n as int) =~= v@);
    let mut pos: usize = 0;
    while pos < n
        invariant
            pos <= n == v@.len(),
            v@ == s@,
            c0 <= pos,
            c1 <= pos,
            c2 <= pos,
            count_kind(lines(s@), 0) == c0 + count_kind(lines(v@.subrange(pos as int, n as int)), 0),
            count_kind(lines(s@), 1) == c1 + count_kind(lines(v@.subrange(pos as int, n as int)), 1),
            count_kind(lines(s@), 2) == c2 + count_kind(lines(v@.subrange(pos as int, n as int)), 2),
        decreases n - pos,
    {
        let (le, next) = next_line(&v, pos);
        let ghost ls = lines(v@.subrange(pos as int, n as int));
        let e = trim_end_index(&v, pos, le);
        let k = kind_at(&v, pos, e);
        if k == 0 {
            c0 = c0 + 1;
        } else if k == 1 {
            c1 = c1 + 1;
        } else if k == 2 {
            c2 = c2 + 1;
        }
        pos = next;
    }
    assert(lines(v@.subrange(pos as int, n as int)) =~= Seq::<Seq<char>>::empty());
    proof {
        lemma_summary_by_kind(s@);
    }
    c0 <= 0xffff_ffff && c1 <= 0xffff_ffff && c2 <= 0xffff_ffff
}

} // verus!
