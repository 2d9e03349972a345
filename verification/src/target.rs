//! Turning a whitelist of labelled markers into a lookup table.
//!
//! A whitelist is a sequence of text lines; each line with at least two
//! whitespace-separated tokens names a label followed by one or more marker
//! strings. All markers are truncated to the length of the shortest marker
//! before the table is built, so every key of the finished table has that
//! common length.

use crate::seq::all_bases;
use crate::seq::canon;
use crate::seq::is_valid_marker;
use crate::seq::table_add;
use crate::seq::LookupSpec;
use crate::seq::Sequence;
use crate::seq::SequenceLookup;
use crate::seq::SequenceTable;
use crate::seq::WhitelistError;
use vstd::prelude::*;
use vstd::string::StrSliceExecFns;

verus! {

/// The whitespace characters that separate tokens on a whitelist line.
pub open spec fn is_space_char(c: char) -> bool {
    c == ' ' || c == '\t' || c == '\n' || c == '\r' || c == '\u{b}' || c == '\u{c}'
}

fn is_space(c: char) -> (r: bool)
    ensures
        r == is_space_char(c),
{
    c == ' ' || c == '\t' || c == '\n' || c == '\r' || c == '\u{b}' || c == '\u{c}'
}

/// The length of the maximal non-whitespace prefix.
pub open spec fn token_len(s: Seq<char>) -> nat
    decreases s.len(),
{
    if s.len() == 0 || is_space_char(s[0]) {
        0
    } else {
        1 + token_len(s.drop_first())
    }
}

/// The maximal non-whitespace prefix is never longer than the line.
proof fn lemma_token_len_bound(s: Seq<char>)
    ensures
        token_len(s) <= s.len(),
    decreases s.len(),
{
    if s.len() > 0 && !is_space_char(s[0]) {
        lemma_token_len_bound(s.drop_first());
    }
}

/// The whitespace-separated tokens of a line, in order.
pub open spec fn tokens_of(s: Seq<char>) -> Seq<Seq<char>>
    decreases s.len(),
    via tokens_of_decreases
{
    if s.len() == 0 {
        Seq::empty()
    } else if is_space_char(s[0]) {
        tokens_of(s.drop_first())
    } else {
        seq![s.take(token_len(s) as int)] + tokens_of(s.skip(token_len(s) as int))
    }
}

#[via_fn]
proof fn tokens_of_decreases(s: Seq<char>) {
    if s.len() > 0 && !is_space_char(s[0]) {
        lemma_token_len_bound(s);
        assert(token_len(s) == 1 + token_len(s.drop_first()));
    }
}

/// A run of `j` non-whitespace characters ended by the end of the line or a
/// whitespace character is exactly the next token.
proof fn lemma_token_len(s: Seq<char>, j: int)
    requires
        0 <= j <= s.len(),
        forall|t: int| 0 <= t < j ==> !is_space_char(#[trigger] s[t]),
        j == s.len() || is_space_char(s[j]),
    ensures
        token_len(s) == j,
    decreases j,
{
    if j > 0 {
        lemma_token_len(s.drop_first(), j - 1);
    }
}

/// The label/marker pairs a single line contributes: its first token paired
/// with each later token.
pub open spec fn line_pairs(toks: Seq<Seq<char>>) -> Seq<(Seq<char>, Seq<char>)> {
    if toks.len() >= 2 {
        Seq::new((toks.len() - 1) as nat, |i: int| (toks[0], toks[i + 1]))
    } else {
        Seq::empty()
    }
}

/// The label/marker pairs of a whole whitelist, in line order.
pub open spec fn whitelist_pairs(lines: Seq<Seq<char>>) -> Seq<(Seq<char>, Seq<char>)>
    decreases lines.len(),
{
    if lines.len() == 0 {
        Seq::empty()
    } else {
        whitelist_pairs(lines.drop_last()) + line_pairs(tokens_of(lines.last()))
    }
}

/// Every marker of the whitelist validates.
pub open spec fn all_markers_valid(ps: Seq<(Seq<char>, Seq<char>)>) -> bool {
    forall|i: int| 0 <= i < ps.len() ==> is_valid_marker((#[trigger] ps[i]).1)
}

/// The length of the shortest marker; 0 when there are no markers.
pub open spec fn min_marker_len(ps: Seq<(Seq<char>, Seq<char>)>) -> int
    decreases ps.len(),
{
    if ps.len() == 0 {
        0
    } else if ps.len() == 1 {
        ps[0].1.len() as int
    } else {
        let rest = min_marker_len(ps.drop_last());
        if ps.last().1.len() < rest {
            ps.last().1.len() as int
        } else {
            rest
        }
    }
}

/// The table map built by entering each marker, truncated to `len` symbols,
/// in whitelist order.
pub open spec fn built_table(ps: Seq<(Seq<char>, Seq<char>)>, len: int) -> Map<
    Seq<u8>,
    LookupSpec,
>
    decreases ps.len(),
{
    if ps.len() == 0 {
        Map::empty()
    } else {
        table_add(built_table(ps.drop_last(), len), canon(ps.last().1).take(len), ps.last().0)
    }
}

/// The shortest marker is no longer than any marker.
proof fn lemma_min_marker_len_le(ps: Seq<(Seq<char>, Seq<char>)>, i: int)
    requires
        0 <= i < ps.len(),
    ensures
        min_marker_len(ps) <= ps[i].1.len(),
        ps.len() > 0 ==> min_marker_len(ps) >= 0,
    decreases ps.len(),
{
    if ps.len() > 1 && i < ps.len() - 1 {
        lemma_min_marker_len_le(ps.drop_last(), i);
    }
    if ps.len() > 1 {
        lemma_min_marker_len_le(ps.drop_last(), 0);
    }
}

/// Every key of the built table has the common length `len`.
proof fn lemma_built_table_key_len(ps: Seq<(Seq<char>, Seq<char>)>, len: int)
    requires
        0 <= len,
        forall|i: int| 0 <= i < ps.len() ==> len <= (#[trigger] ps[i]).1.len(),
    ensures
        forall|k: Seq<u8>| #[trigger] built_table(ps, len).contains_key(k) ==> k.len() == len,
    decreases ps.len(),
{
    if ps.len() > 0 {
        lemma_built_table_key_len(ps.drop_last(), len);
        let prev = built_table(ps.drop_last(), len);
        let marker = canon(ps.last().1).take(len);
        assert(marker.len() == len);
        assert forall|k: Seq<u8>| #[trigger] built_table(ps, len).contains_key(k) implies k.len()
            == len by {
            if k != marker && !prev.contains_key(k) {
                assert(crate::seq::is_one_sub_neighbor(k, marker));
                let i = choose|i: int|
                    crate::seq::differs_only_at(k, marker, i) && crate::seq::is_base(k[i]);
            }
        }
    }
}

/// Splits a line into its whitespace-separated tokens.
pub fn split_whitespace_tokens(line: &str) -> (r: Vec<String>)
    ensures
        r.deep_view() == tokens_of(line@),
{
    let n = line.unicode_len();
    let mut toks: Vec<String> = Vec::new();
    let mut i: usize = 0;
    proof {
        assert(line@.skip(0) =~= line@);
        assert(toks.deep_view() + tokens_of(line@.skip(0)) =~= tokens_of(line@));
    }
    while i < n
        invariant
            i <= n,
            n == line@.len(),
            toks.deep_view() + tokens_of(line@.skip(i as int)) == tokens_of(line@),
        decreases n - i,
    {
        let c = line.get_char(i);
        if is_space(c) {
            proof {
                assert(line@.skip(i as int).drop_first() =~= line@.skip(i as int + 1));
            }
            i += 1;
        } else {
            let start = i;
            i += 1;
            while i < n && !is_space(line.get_char(i))
                invariant
                    start < i <= n,
                    n == line@.len(),
                    forall|t: int| start <= t < i ==> !is_space_char(#[trigger] line@[t]),
                decreases n - i,
            {
                i += 1;
            }
            let token = line.substring_char(start, i).to_owned();
            toks.push(token);
            proof {
                let rest = line@.skip(start as int);
                lemma_token_len(rest, i - start);
                assert(rest.take(i - start) =~= line@.subrange(start as int, i as int));
                assert(rest.skip(i - start) =~= line@.skip(i as int));
                assert(tokens_of(rest) == seq![line@.subrange(start as int, i as int)] + tokens_of(
                    line@.skip(i as int),
                ));
                assert(toks.deep_view() + tokens_of(line@.skip(i as int)) =~= tokens_of(line@));
            }
        }
    }
    proof {
        assert(line@.skip(n as int) =~= Seq::<char>::empty());
        assert(toks.deep_view() =~= tokens_of(line@));
    }
    toks
}

/// Holds the finished lookup table for one run.
pub struct TargetProcessor {
    pub target_map: SequenceTable,
}

impl TargetProcessor {
    /// Builds the lookup table from the lines of a whitelist file.
    ///
    /// Fails with `InvalidSequence` when any marker does not validate, and
    /// with `EmptyTable` when no line contributes a label/marker pair.
    /// Otherwise every marker is truncated to the shortest marker's length
    /// and entered into the table in whitelist order.
    pub fn process(lines: &Vec<String>) -> (r: Result<Self, WhitelistError>)
        ensures
            ({
                let ps = whitelist_pairs(lines.deep_view());
                &&& (r is Ok <==> all_markers_valid(ps) && ps.len() > 0)
                &&& ((r == Err::<Self, WhitelistError>(WhitelistError::InvalidSequence))
                    <==> !all_markers_valid(ps))
                &&& ((r == Err::<Self, WhitelistError>(WhitelistError::EmptyTable))
                    <==> (all_markers_valid(ps) && ps.len() == 0))
                &&& (r matches Ok(tp) ==> {
                    &&& tp.target_map.wf()
                    &&& tp.target_map@ == built_table(ps, min_marker_len(ps))
                    &&& tp.target_map.min_length == min_marker_len(ps)
                    &&& tp.target_map.trimmed()
                })
            }),
    {
        let ghost all_lines = lines.deep_view();
        let ghost ps = whitelist_pairs(all_lines);
        let mut pairs: Vec<(String, Sequence)> = Vec::new();
        let mut li: usize = 0;
        while li < lines.len()
            invariant
                li <= lines.len(),
                all_lines == lines.deep_view(),
                ps == whitelist_pairs(all_lines),
                pairs_match(pairs@, whitelist_pairs(all_lines.take(li as int))),
            decreases lines.len() - li,
        {
            let toks = split_whitespace_tokens(lines[li].as_str());
            let ghost lp = line_pairs(tokens_of(all_lines[li as int]));
            proof {
                lemma_wp_snoc(all_lines, li as int);
            }
            if toks.len() > 1 {
                let mut w: usize = 1;
                while w < toks.len()
                    invariant
                        1 <= w <= toks.len(),
                        toks.len() >= 2,
                        toks.deep_view() == tokens_of(all_lines[li as int]),
                        li < all_lines.len(),
                        all_lines == lines.deep_view(),
                        ps == whitelist_pairs(all_lines),
                        lp == line_pairs(tokens_of(all_lines[li as int])),
                        pairs_match(
                            pairs@,
                            whitelist_pairs(all_lines.take(li as int)) + lp.take(w as int - 1),
                        ),
                    decreases toks.len() - w,
                {
                    let marker = toks[w].clone();
                    proof {
                        assert(marker@ == lp[w as int - 1].1);
                    }
                    match Sequence::new(marker) {
                        Ok(sq) => {
                            let label = toks[0].clone();
                            proof {
                                assert(label@ == lp[w as int - 1].0);
                            }
                            pairs.push((label, sq));
                            proof {
                                let wp_li = whitelist_pairs(all_lines.take(li as int));
                                assert(wp_li + lp.take(w as int) =~= (wp_li + lp.take(
                                    w as int - 1,
                                )).push(lp[w as int - 1]));
                                assert(pairs_match(pairs@, wp_li + lp.take(w as int)));
                            }
                        },
                        Err(_) => {
                            proof {
                                lemma_wp_snoc(all_lines, li as int);
                                lemma_wp_extends(all_lines, li as int + 1);
                                let d = whitelist_pairs(all_lines.take(li as int)).len() + w - 1;
                                assert(whitelist_pairs(all_lines.take(li as int + 1))[d as int]
                                    == lp[w as int - 1]);
                                assert(ps[d as int] == lp[w as int - 1]);
                                assert(!is_valid_marker(ps[d as int].1));
                            }
                            return Err(WhitelistError::InvalidSequence);
                        },
                    }
                    w += 1;
                }
                proof {
                    assert(lp.take(lp.len() as int) =~= lp);
                }
            } else {
                proof {
                    assert(lp =~= Seq::<(Seq<char>, Seq<char>)>::empty());
                    assert(whitelist_pairs(all_lines.take(li as int)) + lp =~= whitelist_pairs(
                        all_lines.take(li as int),
                    ));
                }
            }
            li += 1;
        }
        proof {
            assert(all_lines.take(all_lines.len() as int) =~= all_lines);
            assert(pairs_match(pairs@, ps));
            assert forall|j: int| 0 <= j < ps.len() implies is_valid_marker(
                (#[trigger] ps[j]).1,
            ) by {
                assert(pairs@[j].1.seq@ == canon(ps[j].1));
            }
        }
        if pairs.len() == 0 {
            return Err(WhitelistError::EmptyTable);
        }
        // The common key length: the shortest marker's length.
        let mut ml: usize = pairs[0].1.len();
        proof {
            assert(ps.take(1).len() == 1);
            assert(ml == min_marker_len(ps.take(1)));
        }
        let mut j: usize = 1;
        while j < pairs.len()
            invariant
                1 <= j <= pairs.len(),
                pairs_match(pairs@, ps),
                ml == min_marker_len(ps.take(j as int)),
            decreases pairs.len() - j,
        {
            let l = pairs[j].1.len();
            if l < ml {
                ml = l;
            }
            proof {
                assert(ps.take(j as int + 1).drop_last() =~= ps.take(j as int));
                assert(ps.take(j as int + 1).last() == ps[j as int]);
            }
            j += 1;
        }
        proof {
            assert(ps.take(ps.len() as int) =~= ps);
        }
        let ghost len = min_marker_len(ps);
        let mut table = SequenceTable::default();
        let mut j: usize = 0;
        while j < pairs.len()
            invariant
                j <= pairs.len(),
                pairs_match(pairs@, ps),
                ml == min_marker_len(ps),
                len == min_marker_len(ps),
                table.wf(),
                table.min_length == 0,
                table@ == built_table(ps.take(j as int), len),
            decreases pairs.len() - j,
        {
            let mut key = pairs[j].1.seq.clone();
            proof {
                assert(key@ =~= canon(ps[j as int].1));
                lemma_min_marker_len_le(ps, j as int);
            }
            key.truncate(ml);
            let sq = Sequence { seq: key };
            proof {
                assert(sq.seq@ =~= canon(ps[j as int].1).take(len));
                assert(all_bases(sq.seq@)) by {
                    assert(all_bases(canon(ps[j as int].1)));
                    assert forall|t: int| 0 <= t < sq.seq@.len() implies crate::seq::is_base(
                        #[trigger] sq.seq@[t],
                    ) by {
                        assert(sq.seq@[t] == canon(ps[j as int].1)[t]);
                    }
                }
            }
            table.add_seq(&sq, pairs[j].0.as_str());
            proof {
                assert(ps.take(j as int + 1).drop_last() =~= ps.take(j as int));
                assert(ps.take(j as int + 1).last() == ps[j as int]);
                assert(table@ == built_table(ps.take(j as int + 1), len));
            }
            j += 1;
        }
        proof {
            assert(ps.take(ps.len() as int) =~= ps);
        }
        table.min_length = ml;
        proof {
            assert forall|i: int| 0 <= i < ps.len() implies len <= (#[trigger] ps[i]).1.len() by {
                lemma_min_marker_len_le(ps, i);
            }
            lemma_built_table_key_len(ps, len);
        }
        Ok(TargetProcessor { target_map: table })
    }
}

/// The length of the shortest key among a table's entries; 0 when there are
/// none.
pub open spec fn min_entry_len(es: Seq<(Sequence, SequenceLookup)>) -> int
    decreases es.len(),
{
    if es.len() == 0 {
        0
    } else if es.len() == 1 {
        es[0].0.seq@.len() as int
    } else {
        let rest = min_entry_len(es.drop_last());
        if es.last().0.seq@.len() < rest {
            es.last().0.seq@.len() as int
        } else {
            rest
        }
    }
}

/// The map that truncating each entry's key to `len` symbols produces, a
/// later entry overwriting an earlier one whose truncated key collides.
pub open spec fn trimmed_map(es: Seq<(Sequence, SequenceLookup)>, len: int) -> Map<
    Seq<u8>,
    LookupSpec,
>
    decreases es.len(),
{
    if es.len() == 0 {
        Map::empty()
    } else {
        trimmed_map(es.drop_last(), len).insert(es.last().0.seq@.take(len), es.last().1@)
    }
}

/// The shortest key is no longer than any key.
proof fn lemma_min_entry_len_le(es: Seq<(Sequence, SequenceLookup)>, i: int)
    requires
        0 <= i < es.len(),
    ensures
        min_entry_len(es) <= es[i].0.seq@.len(),
        min_entry_len(es) >= 0,
    decreases es.len(),
{
    if es.len() > 1 && i < es.len() - 1 {
        lemma_min_entry_len_le(es.drop_last(), i);
    }
    if es.len() > 1 {
        lemma_min_entry_len_le(es.drop_last(), 0);
    }
}

/// Every key of the trimmed map has the common length `len`.
proof fn lemma_trimmed_map_key_len(es: Seq<(Sequence, SequenceLookup)>, len: int)
    requires
        0 <= len,
        forall|i: int| 0 <= i < es.len() ==> len <= (#[trigger] es[i]).0.seq@.len(),
    ensures
        forall|k: Seq<u8>| #[trigger] trimmed_map(es, len).contains_key(k) ==> k.len() == len,
    decreases es.len(),
{
    if es.len() > 0 {
        assert forall|i: int| 0 <= i < es.drop_last().len() implies len <= (#[trigger] es.drop_last()[i]).0.seq@.len() by {
            assert(es.drop_last()[i] == es[i]);
        }
        lemma_trimmed_map_key_len(es.drop_last(), len);
        let prev = trimmed_map(es.drop_last(), len);
        assert(es.last() == es[es.len() - 1]);
        let newk = es.last().0.seq@.take(len);
        assert(newk.len() == len);
        assert forall|k: Seq<u8>| #[trigger] trimmed_map(es, len).contains_key(k) implies k.len()
            == len by {
            if k != newk {
                assert(prev.contains_key(k));
            }
        }
    }
}

impl TargetProcessor {
    /// Truncates every key of an existing table to the shortest key's length.
    ///
    /// Fails with `EmptyTable` when the table has no entries. When two keys
    /// collide after truncation, the entry later in the table wins.
    pub fn trim_seqs_by_len_in_target_map(untrimmed_target_map: SequenceTable) -> (r: Result<
        Self,
        WhitelistError,
    >)
        requires
            untrimmed_target_map.wf(),
        ensures
            ({
                let es = untrimmed_target_map.all_whitelist_combinations@;
                &&& (r is Err <==> es.len() == 0)
                &&& (r is Err ==> r == Err::<Self, WhitelistError>(WhitelistError::EmptyTable))
                &&& (r matches Ok(tp) ==> {
                    &&& tp.target_map.wf()
                    &&& tp.target_map.min_length == min_entry_len(es)
                    &&& tp.target_map@ == trimmed_map(es, min_entry_len(es))
                    &&& tp.target_map.trimmed()
                })
            }),
    {
        let ghost es = untrimmed_target_map.all_whitelist_combinations@;
        let n = untrimmed_target_map.all_whitelist_combinations.len();
        if n == 0 {
            return Err(WhitelistError::EmptyTable);
        }
        let mut ml: usize = untrimmed_target_map.all_whitelist_combinations[0].0.seq.len();
        proof {
            assert(es.take(1).len() == 1);
            assert(ml == min_entry_len(es.take(1)));
        }
        let mut j: usize = 1;
        while j < n
            invariant
                1 <= j <= n,
                n == es.len(),
                es == untrimmed_target_map.all_whitelist_combinations@,
                ml == min_entry_len(es.take(j as int)),
            decreases n - j,
        {
            let l = untrimmed_target_map.all_whitelist_combinations[j].0.seq.len();
            if l < ml {
                ml = l;
            }
            proof {
                assert(es.take(j as int + 1).drop_last() =~= es.take(j as int));
                assert(es.take(j as int + 1).last() == es[j as int]);
            }
            j += 1;
        }
        proof {
            assert(es.take(es.len() as int) =~= es);
        }
        let ghost len = min_entry_len(es);
        let mut table = SequenceTable::default();
        let mut j: usize = 0;
        while j < n
            invariant
                j <= n,
                n == es.len(),
                es == untrimmed_target_map.all_whitelist_combinations@,
                ml == min_entry_len(es),
                len == min_entry_len(es),
                table.wf(),
                table.min_length == 0,
                table@ == trimmed_map(es.take(j as int), len),
            decreases n - j,
        {
            let mut key = untrimmed_target_map.all_whitelist_combinations[j].0.seq.clone();
            proof {
                assert(key@ =~= es[j as int].0.seq@);
                lemma_min_entry_len_le(es, j as int);
            }
            key.truncate(ml);
            let value = untrimmed_target_map.all_whitelist_combinations[j].1.duplicate();
            table.insert(Sequence { seq: key }, value);
            proof {
                assert(es.take(j as int + 1).drop_last() =~= es.take(j as int));
                assert(es.take(j as int + 1).last() == es[j as int]);
                assert(table@ == trimmed_map(es.take(j as int + 1), len));
            }
            j += 1;
        }
        proof {
            assert(es.take(es.len() as int) =~= es);
        }
        table.min_length = ml;
        proof {
            assert forall|i: int| 0 <= i < es.len() implies len <= (#[trigger] es[i]).0.seq@.len()
                by {
                lemma_min_entry_len_le(es, i);
            }
            lemma_trimmed_map_key_len(es, len);
        }
        Ok(TargetProcessor { target_map: table })
    }
}

/// The collected pairs hold, in order, each whitelist label verbatim and each
/// marker in validated canonical form.
pub open spec fn pairs_match(
    v: Seq<(String, Sequence)>,
    ps: Seq<(Seq<char>, Seq<char>)>,
) -> bool {
    &&& v.len() == ps.len()
    &&& forall|i: int|
        0 <= i < v.len() ==> (#[trigger] v[i]).0@ == ps[i].0 && v[i].1.seq@ == canon(ps[i].1)
            && is_valid_marker(ps[i].1)
}

/// Adding one line extends the whitelist's pairs by that line's pairs.
proof fn lemma_wp_snoc(lines: Seq<Seq<char>>, i: int)
    requires
        0 <= i < lines.len(),
    ensures
        whitelist_pairs(lines.take(i + 1)) == whitelist_pairs(lines.take(i)) + line_pairs(
            tokens_of(lines[i]),
        ),
{
    assert(lines.take(i + 1).drop_last() =~= lines.take(i));
    assert(lines.take(i + 1).last() == lines[i]);
}

/// The pairs of a whitelist prefix are a prefix of the whitelist's pairs.
proof fn lemma_wp_extends(lines: Seq<Seq<char>>, i: int)
    requires
        0 <= i <= lines.len(),
    ensures
        whitelist_pairs(lines.take(i)).len() <= whitelist_pairs(lines).len(),
        whitelist_pairs(lines).take(whitelist_pairs(lines.take(i)).len() as int)
            == whitelist_pairs(lines.take(i)),
    decreases lines.len() - i,
{
    if i == lines.len() {
        assert(lines.take(i) =~= lines);
        assert(whitelist_pairs(lines).take(whitelist_pairs(lines).len() as int) =~= whitelist_pairs(
            lines,
        ));
    } else {
        lemma_wp_snoc(lines, i);
        lemma_wp_extends(lines, i + 1);
        let a = whitelist_pairs(lines.take(i));
        let b = whitelist_pairs(lines.take(i + 1));
        let all = whitelist_pairs(lines);
        assert(all.take(b.len() as int) == b);
        assert(all.take(a.len() as int) =~= a) by {
            assert forall|t: int| 0 <= t < a.len() implies all[t] == a[t] by {
                assert(all.take(b.len() as int)[t] == b[t]);
                assert(b[t] == (a + line_pairs(tokens_of(lines[i])))[t]);
            }
        }
    }
}

} // verus!
