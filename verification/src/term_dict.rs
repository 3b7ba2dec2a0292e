//! The word dictionary: loaded once from tab-separated text, one row per
//! meaning; rows that share a written form collapse into one homograph, in
//! first-seen order.  A part-of-speech index keeps each bucket in the same
//! relative order as the master list.

use vstd::prelude::*;

use crate::homograph::{
    Homograph, Meaning, PartOfSpeech, TagSet, WordTag, PART_OF_SPEECH_COUNT,
};
use crate::text::{find_char, find_char_range, find_ws, find_ws_range, is_ws, str_eq};

verus! {

/// What a meaning holds, as mathematical values.
pub open spec fn meaning_view(m: Meaning) -> (PartOfSpeech, TagSet, Option<Seq<char>>) {
    (
        m.part_of_speech,
        m.tags,
        match m.definition {
            Some(d) => Some(d@),
            None => None,
        },
    )
}

/// What a homograph holds, as mathematical values.
pub open spec fn hg_view(h: Homograph) -> (
    Seq<char>,
    bool,
    Seq<(PartOfSpeech, TagSet, Option<Seq<char>>)>,
) {
    (h.text@, h.is_single_word, h.meanings@.map_values(|m: Meaning| meaning_view(m)))
}

/// What a list of homographs holds.
pub open spec fn hgs_view(hs: Seq<Homograph>) -> Seq<
    (Seq<char>, bool, Seq<(PartOfSpeech, TagSet, Option<Seq<char>>)>),
> {
    hs.map_values(|h: Homograph| hg_view(h))
}

/// The lines of a file, `\n`-terminated: a trailing newline closes the last
/// line rather than opening an empty one.
pub open spec fn split_lines(s: Seq<char>) -> Seq<Seq<char>>
    decreases s.len(),
    via split_lines_decreases
{
    if s.len() == 0 {
        Seq::empty()
    } else {
        let f = find_char(s, '\n');
        if f < 0 {
            seq![s]
        } else {
            seq![s.take(f)] + split_lines(s.skip(f + 1))
        }
    }
}

#[via_fn]
proof fn split_lines_decreases(s: Seq<char>) {
    crate::text::lemma_find_char(s, '\n');
}

/// The tab-separated fields of a line; a line always has at least one field.
pub open spec fn split_fields(s: Seq<char>) -> Seq<Seq<char>>
    decreases s.len(),
    via split_fields_decreases
{
    let f = find_char(s, '\t');
    if f < 0 {
        seq![s]
    } else {
        seq![s.take(f)] + split_fields(s.skip(f + 1))
    }
}

#[via_fn]
proof fn split_fields_decreases(s: Seq<char>) {
    crate::text::lemma_find_char(s, '\t');
}

pub proof fn lemma_split_fields_len(s: Seq<char>)
    ensures
        split_fields(s).len() >= 1,
{
    crate::text::lemma_find_char(s, '\t');
}

/// The whitespace-separated words of a field, empty words dropped.
pub open spec fn ws_tokens(s: Seq<char>) -> Seq<Seq<char>>
    decreases s.len(),
    via ws_tokens_decreases
{
    if s.len() == 0 {
        Seq::empty()
    } else if is_ws(s[0]) {
        ws_tokens(s.drop_first())
    } else {
        let f = find_ws(s);
        if f < 0 {
            seq![s]
        } else {
            seq![s.take(f)] + ws_tokens(s.skip(f))
        }
    }
}

#[via_fn]
proof fn ws_tokens_decreases(s: Seq<char>) {
    crate::text::lemma_find_ws(s);
}

/// Both tag sets' tags together.
pub open spec fn tag_union(a: TagSet, b: TagSet) -> TagSet {
    TagSet {
        masculine: a.masculine || b.masculine,
        feminine: a.feminine || b.feminine,
        positive: a.positive || b.positive,
        negative: a.negative || b.negative,
    }
}

/// The empty tag set.
pub open spec fn no_tags() -> TagSet {
    TagSet { masculine: false, feminine: false, positive: false, negative: false }
}

/// The tag set a list of tag words names, or nothing when a word names no
/// tag.
pub open spec fn tags_of_tokens(ts: Seq<Seq<char>>) -> Option<TagSet>
    decreases ts.len(),
{
    if ts.len() == 0 {
        Some(no_tags())
    } else {
        match WordTag::spec_of_code(ts[0]) {
            None => None,
            Some(t) => match tags_of_tokens(ts.drop_first()) {
                None => None,
                Some(acc) => Some(acc.spec_insert(t)),
            },
        }
    }
}

/// One parsed row: text, part of speech, tags and optional definition.
/// A row needs at least three fields (code, text, definition); a fourth
/// holds tag words; anything further is ignored.  `None` when the row is
/// malformed.
pub open spec fn parse_row(line: Seq<char>) -> Option<
    (Seq<char>, PartOfSpeech, TagSet, Option<Seq<char>>),
> {
    let fields = split_fields(line);
    if fields.len() < 3 {
        None
    } else {
        match PartOfSpeech::spec_of_code(fields[0]) {
            None => None,
            Some(pos) => {
                let def: Option<Seq<char>> = if fields[2].len() == 0 {
                    None
                } else {
                    Some(fields[2])
                };
                let tag_src: Seq<char> = if fields.len() >= 4 {
                    fields[3]
                } else {
                    Seq::empty()
                };
                match tags_of_tokens(ws_tokens(tag_src)) {
                    None => None,
                    Some(tags) => Some((fields[1], pos, tags, def)),
                }
            },
        }
    }
}

/// All rows of a file, or nothing as soon as one is malformed.
pub open spec fn parse_rows(lines: Seq<Seq<char>>) -> Option<
    Seq<(Seq<char>, PartOfSpeech, TagSet, Option<Seq<char>>)>,
>
    decreases lines.len(),
{
    if lines.len() == 0 {
        Some(Seq::empty())
    } else {
        match parse_row(lines[0]) {
            None => None,
            Some(r) => match parse_rows(lines.drop_first()) {
                None => None,
                Some(rest) => Some(seq![r] + rest),
            },
        }
    }
}

/// The position of a text among grouped homograph views, or -1.
pub open spec fn index_of_text(
    gs: Seq<(Seq<char>, bool, Seq<(PartOfSpeech, TagSet, Option<Seq<char>>)>)>,
    t: Seq<char>,
) -> int
    decreases gs.len(),
{
    if gs.len() == 0 {
        -1
    } else if gs[0].0 == t {
        0
    } else {
        let r = index_of_text(gs.drop_first(), t);
        if r < 0 {
            -1
        } else {
            r + 1
        }
    }
}

pub proof fn lemma_index_of_text(
    gs: Seq<(Seq<char>, bool, Seq<(PartOfSpeech, TagSet, Option<Seq<char>>)>)>,
    t: Seq<char>,
)
    ensures
        index_of_text(gs, t) == -1 ==> forall|j: int| 0 <= j < gs.len() ==> gs[j].0 != t,
        index_of_text(gs, t) >= 0 ==> 0 <= index_of_text(gs, t) < gs.len() && gs[index_of_text(
            gs,
            t,
        )].0 == t && forall|j: int| 0 <= j < index_of_text(gs, t) ==> gs[j].0 != t,
    decreases gs.len(),
{
    if gs.len() > 0 && gs[0].0 != t {
        lemma_index_of_text(gs.drop_first(), t);
        let r = index_of_text(gs.drop_first(), t);
        if r == -1 {
            assert forall|j: int| 0 <= j < gs.len() implies gs[j].0 != t by {
                if j > 0 {
                    assert(gs.drop_first()[j - 1] == gs[j]);
                }
            }
        } else {
            assert(gs[r + 1] == gs.drop_first()[r]);
            assert forall|j: int| 0 <= j < r + 1 implies gs[j].0 != t by {
                if j > 0 {
                    assert(gs.drop_first()[j - 1] == gs[j]);
                }
            }
        }
    }
}

pub proof fn lemma_index_of_text_is(
    gs: Seq<(Seq<char>, bool, Seq<(PartOfSpeech, TagSet, Option<Seq<char>>)>)>,
    t: Seq<char>,
    i: int,
)
    requires
        0 <= i < gs.len(),
        gs[i].0 == t,
        forall|j: int| 0 <= j < i ==> gs[j].0 != t,
    ensures
        index_of_text(gs, t) == i,
{
    lemma_index_of_text(gs, t);
    let f = index_of_text(gs, t);
    if f == -1 {
        assert(gs[i].0 != t);
        assert(false);
    } else {
        if f < i {
            assert(gs[f].0 != t);
            assert(false);
        }
        if f > i {
            assert(gs[i].0 != t);
            assert(false);
        }
    }
}

pub proof fn lemma_index_of_text_none(
    gs: Seq<(Seq<char>, bool, Seq<(PartOfSpeech, TagSet, Option<Seq<char>>)>)>,
    t: Seq<char>,
)
    requires
        forall|j: int| 0 <= j < gs.len() ==> gs[j].0 != t,
    ensures
        index_of_text(gs, t) == -1,
{
    lemma_index_of_text(gs, t);
    let f = index_of_text(gs, t);
    if f >= 0 {
        assert(gs[f].0 != t);
        assert(false);
    }
}

/// One row folded into the grouped views: a new single-word entry for an
/// unseen text, one more meaning at the end of an already-seen one.
pub open spec fn add_row(
    gs: Seq<(Seq<char>, bool, Seq<(PartOfSpeech, TagSet, Option<Seq<char>>)>)>,
    row: (Seq<char>, PartOfSpeech, TagSet, Option<Seq<char>>),
) -> Seq<(Seq<char>, bool, Seq<(PartOfSpeech, TagSet, Option<Seq<char>>)>)> {
    let i = index_of_text(gs, row.0);
    if i < 0 {
        gs.push((row.0, true, seq![(row.1, row.2, row.3)]))
    } else {
        gs.update(i, (gs[i].0, gs[i].1, gs[i].2.push((row.1, row.2, row.3))))
    }
}

/// All rows folded into grouped views, front to back.
pub open spec fn group_rows(
    rows: Seq<(Seq<char>, PartOfSpeech, TagSet, Option<Seq<char>>)>,
    acc: Seq<(Seq<char>, bool, Seq<(PartOfSpeech, TagSet, Option<Seq<char>>)>)>,
) -> Seq<(Seq<char>, bool, Seq<(PartOfSpeech, TagSet, Option<Seq<char>>)>)>
    decreases rows.len(),
{
    if rows.len() == 0 {
        acc
    } else {
        group_rows(rows.drop_first(), add_row(acc, rows[0]))
    }
}

/// Grouping never repeats a text: each row either opens a new text or
/// joins the one group already carrying it.
pub proof fn lemma_group_rows_distinct_texts(
    rows: Seq<(Seq<char>, PartOfSpeech, TagSet, Option<Seq<char>>)>,
    acc: Seq<(Seq<char>, bool, Seq<(PartOfSpeech, TagSet, Option<Seq<char>>)>)>,
)
    requires
        forall|a: int, b: int| 0 <= a < b < acc.len() ==> (#[trigger] acc[a]).0 != (
        #[trigger] acc[b]).0,
    ensures
        forall|a: int, b: int|
            0 <= a < b < group_rows(rows, acc).len() ==> (#[trigger] group_rows(rows, acc)[a]).0
                != (#[trigger] group_rows(rows, acc)[b]).0,
    decreases rows.len(),
{
    if rows.len() > 0 {
        let acc2 = add_row(acc, rows[0]);
        assert forall|a: int, b: int| 0 <= a < b < acc2.len() implies (#[trigger] acc2[a]).0 != (
        #[trigger] acc2[b]).0 by {
            let i = index_of_text(acc, rows[0].0);
            lemma_index_of_text(acc, rows[0].0);
            if i < 0 {
                if b == acc2.len() - 1 {
                    assert(acc2[b].0 == rows[0].0);
                    assert(acc2[a] == acc[a]);
                    assert(acc[a].0 != rows[0].0);
                } else {
                    assert(acc2[a] == acc[a]);
                    assert(acc2[b] == acc[b]);
                }
            } else {
                assert(acc2[a].0 == acc[a].0);
                assert(acc2[b].0 == acc[b].0);
            }
        }
        lemma_group_rows_distinct_texts(rows.drop_first(), acc2);
        assert(group_rows(rows, acc) == group_rows(rows.drop_first(), acc2));
    }
}

/// Folding one more row at the back lands on `add_row` of the fold so far.
pub proof fn lemma_group_rows_push(
    rows: Seq<(Seq<char>, PartOfSpeech, TagSet, Option<Seq<char>>)>,
    acc: Seq<(Seq<char>, bool, Seq<(PartOfSpeech, TagSet, Option<Seq<char>>)>)>,
    row: (Seq<char>, PartOfSpeech, TagSet, Option<Seq<char>>),
)
    ensures
        group_rows(rows.push(row), acc) == add_row(group_rows(rows, acc), row),
    decreases rows.len(),
{
    if rows.len() == 0 {
        assert(rows.push(row)[0] == row);
        assert(rows.push(row).drop_first() =~= Seq::<
            (Seq<char>, PartOfSpeech, TagSet, Option<Seq<char>>),
        >::empty());
        assert(group_rows(rows.push(row), acc) == group_rows(
            Seq::<(Seq<char>, PartOfSpeech, TagSet, Option<Seq<char>>)>::empty(),
            add_row(acc, row),
        ));
        assert(group_rows(
            Seq::<(Seq<char>, PartOfSpeech, TagSet, Option<Seq<char>>)>::empty(),
            add_row(acc, row),
        ) == add_row(acc, row));
        assert(group_rows(rows, acc) == acc);
    } else {
        assert(rows.push(row)[0] == rows[0]);
        assert(rows.push(row).drop_first() =~= rows.drop_first().push(row));
        assert(group_rows(rows.push(row), acc) == group_rows(
            rows.drop_first().push(row),
            add_row(acc, rows[0]),
        ));
        lemma_group_rows_push(rows.drop_first(), add_row(acc, rows[0]), row);
        assert(group_rows(rows, acc) == group_rows(rows.drop_first(), add_row(acc, rows[0])));
    }
}

/// The exec fold step: push a parsed meaning onto the homograph with the
/// same text, or start a new homograph.
fn fold_row_into(homographs: &mut Vec<Homograph>, text: &str, meaning: Meaning)
    ensures
        hgs_view(final(homographs)@) == add_row(
            hgs_view(old(homographs)@),
            (text@, meaning.part_of_speech, meaning.tags, match meaning.definition {
                Some(d) => Some(d@),
                None => None,
            }),
        ),
        final(homographs)@.len() >= old(homographs)@.len(),
{
    let ghost row = (
        text@,
        meaning.part_of_speech,
        meaning.tags,
        match &meaning.definition {
            Some(d) => Some(d@),
            None => None,
        },
    );
    let ghost gs = hgs_view(homographs@);
    let n = homographs.len();
    let mut i: usize = 0;
    #[verifier::loop_isolation(false)]
    while i < n
        invariant
            i <= n,
            n == homographs@.len(),
            gs == hgs_view(homographs@),
            forall|j: int| 0 <= j < i ==> hgs_view(homographs@)[j].0 != text@,
        decreases n - i,
    {
        proof {
            assert(hgs_view(homographs@)[i as int] == hg_view(homographs@[i as int]));
        }
        if str_eq(homographs[i].text.as_str(), text) {
            proof {
                lemma_index_of_text_is(gs, text@, i as int);
            }
            let mut h = homographs.remove(i);
            h.meanings.push(meaning);
            homographs.insert(i, h);
            proof {
                assert(hgs_view(homographs@) =~= add_row(gs, row)) by {
                    assert(forall|j: int|
                        0 <= j < homographs@.len() ==> hgs_view(homographs@)[j] == hg_view(
                            homographs@[j],
                        ));
                    assert(homographs@[i as int].meanings@.map_values(
                        |m: Meaning| meaning_view(m),
                    ) =~= gs[i as int].2.push((row.1, row.2, row.3)));
                }
            }
            return ;
        }
        i = i + 1;
    }
    proof {
        lemma_index_of_text_none(gs, text@);
    }
    let mut s = String::new();
    s.append(text);
    let h = Homograph { text: s, is_single_word: true, meanings: vec![meaning] };
    proof {
        assert(h.meanings@.map_values(|m: Meaning| meaning_view(m)) =~= seq![
            (row.1, row.2, row.3),
        ]);
        assert(h.text@ =~= text@);
    }
    homographs.push(h);
    proof {
        assert(hgs_view(homographs@) =~= add_row(gs, row));
    }
}

/// Parses the tag words of one field range into a tag set.
fn parse_tags(s: &str, from: usize, to: usize) -> (r: Result<TagSet, &'static str>)
    requires
        from <= to <= s@.len(),
    ensures
        match r {
            Ok(tags) => tags_of_tokens(ws_tokens(s@.subrange(from as int, to as int))) == Some(
                tags,
            ),
            Err(_) => tags_of_tokens(ws_tokens(s@.subrange(from as int, to as int))) is None,
        },
{
    let ghost whole = s@.subrange(from as int, to as int);
    let mut tags = TagSet::empty();
    let mut c: usize = from;
    proof {
        assert(tags == no_tags());
    }
    while c < to
        invariant
            from <= c <= to,
            to <= s@.len(),
            whole == s@.subrange(from as int, to as int),
            match tags_of_tokens(ws_tokens(s@.subrange(c as int, to as int))) {
                None => tags_of_tokens(ws_tokens(whole)) is None,
                Some(x) => tags_of_tokens(ws_tokens(whole)) == Some(tag_union(tags, x)),
            },
        decreases to - c,
    {
        let ghost rem = s@.subrange(c as int, to as int);
        let ch = s.get_char(c);
        proof {
            assert(rem[0] == s@[c as int]);
        }
        if crate::text::is_ws_char(ch) {
            proof {
                assert(rem.drop_first() =~= s@.subrange(c as int + 1, to as int));
            }
            c = c + 1;
        } else {
            let wend = match find_ws_range(s, c, to) {
                Some(w) => w,
                None => to,
            };
            proof {
                let tok = s@.subrange(c as int, wend as int);
                if wend < to {
                    assert(find_ws(rem) == wend - c);
                    assert(rem.take(wend - c) =~= tok);
                    assert(rem.skip(wend - c) =~= s@.subrange(wend as int, to as int));
                    assert(ws_tokens(rem) == seq![tok] + ws_tokens(
                        s@.subrange(wend as int, to as int),
                    ));
                } else {
                    assert(find_ws(rem) == -1);
                    assert(rem =~= tok);
                    assert(ws_tokens(rem) == seq![tok]);
                    assert(ws_tokens(rem) == seq![tok] + ws_tokens(
                        s@.subrange(wend as int, to as int),
                    )) by {
                        assert(s@.subrange(wend as int, to as int).len() == 0);
                        assert(ws_tokens(s@.subrange(wend as int, to as int)) =~= Seq::<
                            Seq<char>,
                        >::empty());
                        assert(seq![tok] + ws_tokens(s@.subrange(wend as int, to as int)) =~= seq![
                            tok,
                        ]);
                    }
                }
            }
            let token = s.substring_char(c, wend);
            match WordTag::from_str(token) {
                Ok(t) => {
                    proof {
                        let tok = s@.subrange(c as int, wend as int);
                        let rest = s@.subrange(wend as int, to as int);
                        assert((seq![tok] + ws_tokens(rest))[0] == tok);
                        assert((seq![tok] + ws_tokens(rest)).drop_first() =~= ws_tokens(rest));
                    }
                    tags.insert(t);
                },
                Err(e) => {
                    proof {
                        let tok = s@.subrange(c as int, wend as int);
                        let rest = s@.subrange(wend as int, to as int);
                        assert((seq![tok] + ws_tokens(rest))[0] == tok);
                    }
                    return Err(e);
                },
            }
            c = wend;
        }
    }
    proof {
        assert(s@.subrange(c as int, to as int).len() == 0);
        assert(ws_tokens(s@.subrange(c as int, to as int)) =~= Seq::<Seq<char>>::empty());
        assert(tag_union(tags, no_tags()) == tags);
    }
    Ok(tags)
}

/// Parses one line's row: part-of-speech code, text, definition and
/// optional tag words.
#[verifier::rlimit(50)]
fn parse_line(s: &str, ls: usize, le: usize) -> (r: Result<(String, Meaning), &'static str>)
    requires
        ls <= le <= s@.len(),
    ensures
        match r {
            Ok(tm) => parse_row(s@.subrange(ls as int, le as int)) == Some(
                (tm.0@, tm.1.part_of_speech, tm.1.tags, match tm.1.definition {
                    Some(d) => Some(d@),
                    None => None,
                }),
            ),
            Err(_) => parse_row(s@.subrange(ls as int, le as int)) is None,
        },
{
    let ghost line = s@.subrange(ls as int, le as int);
    let t1 = match find_char_range(s, ls, le, '\t') {
        Some(t) => t,
        None => {
            proof {
                assert(find_char(line, '\t') == -1);
                assert(split_fields(line).len() == 1);
            }
            return Err("Missing Term");
        },
    };
    proof {
        assert(find_char(line, '\t') == t1 - ls);
        assert(line.take(t1 - ls) =~= s@.subrange(ls as int, t1 as int));
        assert(line.skip(t1 - ls + 1) =~= s@.subrange(t1 as int + 1, le as int));
    }
    let ghost rest1 = s@.subrange(t1 as int + 1, le as int);
    let t2 = match find_char_range(s, t1 + 1, le, '\t') {
        Some(t) => t,
        None => {
            proof {
                assert(find_char(rest1, '\t') == -1);
                assert(split_fields(rest1).len() == 1);
                assert(split_fields(line).len() == 2);
            }
            return Err("Missing Definition");
        },
    };
    proof {
        assert(find_char(rest1, '\t') == t2 - (t1 + 1));
        assert(rest1.take(t2 - (t1 + 1)) =~= s@.subrange(t1 as int + 1, t2 as int));
        assert(rest1.skip(t2 - (t1 + 1) + 1) =~= s@.subrange(t2 as int + 1, le as int));
    }
    let ghost rest2 = s@.subrange(t2 as int + 1, le as int);
    // The third field runs to the next tab or to the end of the line.
    let (t3, has_fourth) = match find_char_range(s, t2 + 1, le, '\t') {
        Some(t) => (t, true),
        None => (le, false),
    };
    let ghost fields = split_fields(line);
    proof {
        if has_fourth {
            assert(find_char(rest2, '\t') == t3 - (t2 + 1));
            assert(rest2.take(t3 - (t2 + 1)) =~= s@.subrange(t2 as int + 1, t3 as int));
            assert(rest2.skip(t3 - (t2 + 1) + 1) =~= s@.subrange(t3 as int + 1, le as int));
            lemma_split_fields_len(s@.subrange(t3 as int + 1, le as int));
        } else {
            assert(find_char(rest2, '\t') == -1);
            assert(rest2 =~= s@.subrange(t2 as int + 1, t3 as int));
        }
        let f0 = s@.subrange(ls as int, t1 as int);
        let f1 = s@.subrange(t1 as int + 1, t2 as int);
        let f2 = s@.subrange(t2 as int + 1, t3 as int);
        assert(fields == seq![f0] + split_fields(rest1));
        assert(split_fields(rest1) == seq![f1] + split_fields(rest2));
        if has_fourth {
            let rest3 = s@.subrange(t3 as int + 1, le as int);
            assert(split_fields(rest2) == seq![f2] + split_fields(rest3));
            lemma_split_fields_len(split_fields(rest3)[0]);
            assert(fields.len() == 3 + split_fields(rest3).len());
            assert(fields[0] == f0);
            assert(fields[1] == f1);
            assert(fields[2] == f2);
            assert(fields[3] == split_fields(rest3)[0]);
        } else {
            assert(split_fields(rest2) == seq![f2]);
            assert(fields.len() == 3);
            assert(fields[0] == f0);
            assert(fields[1] == f1);
            assert(fields[2] == f2);
        }
        assert(fields.len() >= 3);
        assert((fields.len() >= 4) == has_fourth);
    }
    let pos_str = s.substring_char(ls, t1);
    let pos = match PartOfSpeech::from_str(pos_str) {
        Ok(p) => p,
        Err(e) => {
            return Err(e);
        },
    };
    let text = s.substring_char(t1 + 1, t2);
    let definition: Option<String> = if t2 + 1 == t3 {
        None
    } else {
        Some(s.substring_char(t2 + 1, t3).to_owned())
    };
    // Tag words sit in the fourth field, up to the next tab if any.
    let tags = if has_fourth {
        let t4 = match find_char_range(s, t3 + 1, le, '\t') {
            Some(t) => t,
            None => le,
        };
        proof {
            let rest3 = s@.subrange(t3 as int + 1, le as int);
            if t4 < le {
                assert(find_char(rest3, '\t') == t4 - (t3 + 1));
                assert(rest3.take(t4 - (t3 + 1)) =~= s@.subrange(t3 as int + 1, t4 as int));
            } else {
                assert(find_char(rest3, '\t') == -1);
                assert(rest3 =~= s@.subrange(t3 as int + 1, t4 as int));
            }
            assert(fields[3] == s@.subrange(t3 as int + 1, t4 as int));
        }
        match parse_tags(s, t3 + 1, t4) {
            Ok(tags) => tags,
            Err(e) => {
                return Err(e);
            },
        }
    } else {
        proof {
            assert(ws_tokens(Seq::<char>::empty()) =~= Seq::<Seq<char>>::empty());
        }
        TagSet::empty()
    };
    let meaning = Meaning { part_of_speech: pos, tags, definition };
    let mut text_string = String::new();
    text_string.append(text);
    proof {
        assert(text_string@ =~= fields[1]);
        if t2 + 1 == t3 {
            assert(fields[2].len() == 0);
        } else {
            assert(fields[2].len() > 0);
        }
    }
    Ok((text_string, meaning))
}

/// The dictionary: every homograph in load order, plus one bucket per part
/// of speech holding, in the same order, the homographs with a meaning of
/// that part of speech.
#[derive(Debug)]
pub struct TermDict {
    pub homographs: Vec<Homograph>,
    pub homographs_by_part_of_speech: Vec<Vec<Homograph>>,
}

impl TermDict {
    /// The bucket invariant: one bucket per part of speech, each holding
    /// exactly the homographs that have it, master order kept.
    pub open spec fn spec_buckets_ok(self) -> bool {
        &&& self.homographs_by_part_of_speech@.len() == PART_OF_SPEECH_COUNT
        &&& forall|p: PartOfSpeech|
            hgs_view(
                #[trigger] self.homographs_by_part_of_speech@[p.spec_index() as int]@,
            ) == hgs_view(self.homographs@.filter(has_pos_pred(p)))
    }

    /// The first homograph whose text equals `s` exactly, cloned.
    pub fn try_find(&self, s: &str) -> (r: Option<Homograph>)
        ensures
            match r {
                Some(h) => {
                    let i = index_of_text(hgs_view(self.homographs@), s@);
                    i >= 0 && hg_view(h) == hgs_view(self.homographs@)[i]
                },
                None => index_of_text(hgs_view(self.homographs@), s@) == -1,
            },
    {
        let n = self.homographs.len();
        let mut i: usize = 0;
        while i < n
            invariant
                i <= n,
                n == self.homographs@.len(),
                forall|j: int| 0 <= j < i ==> hgs_view(self.homographs@)[j].0 != s@,
            decreases n - i,
        {
            proof {
                assert(hgs_view(self.homographs@)[i as int] == hg_view(
                    self.homographs@[i as int],
                ));
            }
            if str_eq(self.homographs[i].text.as_str(), s) {
                proof {
                    lemma_index_of_text_is(hgs_view(self.homographs@), s@, i as int);
                }
                return Some(self.homographs[i].clone());
            }
            i = i + 1;
        }
        proof {
            lemma_index_of_text_none(hgs_view(self.homographs@), s@);
        }
        None
    }

    /// The homographs that have a part of speech, in master order.
    pub fn pos_bucket(&self, pos: PartOfSpeech) -> (r: &Vec<Homograph>)
        requires
            self.spec_buckets_ok(),
        ensures
            hgs_view(r@) == hgs_view(self.homographs@.filter(has_pos_pred(pos))),
    {
        &self.homographs_by_part_of_speech[pos.index()]
    }

    /// Loads a dictionary from tab-separated text: one row per meaning,
    /// columns part-of-speech code, text, definition and tag words.  Rows
    /// sharing a text collapse into one homograph in first-seen order.
    /// Fails exactly when some row is malformed.
    pub fn from_csv(s: &str) -> (r: Result<TermDict, &'static str>)
        ensures
            match r {
                Ok(td) => {
                    &&& parse_rows(split_lines(s@)) is Some
                    &&& hgs_view(td.homographs@) == group_rows(
                        parse_rows(split_lines(s@))->Some_0,
                        Seq::empty(),
                    )
                    &&& td.spec_buckets_ok()
                },
                Err(_) => parse_rows(split_lines(s@)) is None,
            },
    {
        let n = s.unicode_len();
        let mut homographs: Vec<Homograph> = Vec::new();
        let mut pos_cursor: usize = 0;
        let ghost mut rows_done: Seq<(Seq<char>, PartOfSpeech, TagSet, Option<Seq<char>>)> =
            Seq::empty();
        proof {
            assert(s@.skip(0) =~= s@);
        }
        while pos_cursor < n
            invariant
                pos_cursor <= n,
                n == s@.len(),
                hgs_view(homographs@) == group_rows(rows_done, Seq::empty()),
                match parse_rows(split_lines(s@.skip(pos_cursor as int))) {
                    None => parse_rows(split_lines(s@)) is None,
                    Some(rest) => parse_rows(split_lines(s@)) == Some(rows_done + rest),
                },
            decreases n - pos_cursor,
        {
            let ghost rem = s@.skip(pos_cursor as int);
            let line_end = match find_char_range(s, pos_cursor, n, '\n') {
                Some(e) => e,
                None => n,
            };
            proof {
                if line_end < n {
                    assert(find_char(rem, '\n') == line_end - pos_cursor);
                    assert(rem.take(line_end - pos_cursor) =~= s@.subrange(
                        pos_cursor as int,
                        line_end as int,
                    ));
                    assert(rem.skip(line_end - pos_cursor + 1) =~= s@.skip(line_end as int + 1));
                    assert(split_lines(rem) == seq![
                        s@.subrange(pos_cursor as int, line_end as int),
                    ] + split_lines(s@.skip(line_end as int + 1)));
                } else {
                    assert(find_char(rem, '\n') == -1);
                    assert(rem =~= s@.subrange(pos_cursor as int, line_end as int));
                    assert(split_lines(rem) == seq![
                        s@.subrange(pos_cursor as int, line_end as int),
                    ]);
                    assert(s@.skip(line_end as int) =~= s@.subrange(
                        line_end as int,
                        line_end as int,
                    ));
                    assert(split_lines(s@.skip(line_end as int)) =~= Seq::<Seq<char>>::empty());
                    assert(split_lines(rem) =~= seq![
                        s@.subrange(pos_cursor as int, line_end as int),
                    ] + split_lines(s@.skip(line_end as int)));
                }
            }
            let ghost line = s@.subrange(pos_cursor as int, line_end as int);
            let ghost tail_lines = split_lines(
                s@.skip(if line_end < n {
                    line_end as int + 1
                } else {
                    line_end as int
                }),
            );
            proof {
                assert(split_lines(rem)[0] == line);
                assert(split_lines(rem).drop_first() =~= tail_lines);
            }
            match parse_line(s, pos_cursor, line_end) {
                Ok((text, meaning)) => {
                    let ghost row = (
                        text@,
                        meaning.part_of_speech,
                        meaning.tags,
                        match &meaning.definition {
                            Some(d) => Some(d@),
                            None => None,
                        },
                    );
                    proof {
                        assert(parse_row(line) == Some(row));
                        match parse_rows(tail_lines) {
                            None => {
                                assert(parse_rows(split_lines(rem)) is None);
                            },
                            Some(rest) => {
                                assert(parse_rows(split_lines(rem)) == Some(seq![row] + rest));
                                assert(rows_done + (seq![row] + rest) =~= (rows_done.push(row))
                                    + rest);
                            },
                        }
                        lemma_group_rows_push(rows_done, Seq::empty(), row);
                    }
                    fold_row_into(&mut homographs, text.as_str(), meaning);
                    proof {
                        rows_done = rows_done.push(row);
                    }
                },
                Err(e) => {
                    proof {
                        assert(parse_row(line) is None);
                        assert(parse_rows(split_lines(rem)) is None);
                    }
                    return Err(e);
                },
            }
            pos_cursor = if line_end < n {
                line_end + 1
            } else {
                n
            };
        }
        proof {
            assert(s@.skip(n as int).len() == 0);
            assert(split_lines(s@.skip(n as int)) =~= Seq::<Seq<char>>::empty());
            assert(parse_rows(split_lines(s@.skip(n as int))) == Some(Seq::<
                (Seq<char>, PartOfSpeech, TagSet, Option<Seq<char>>),
            >::empty()));
            assert(rows_done + Seq::<
                (Seq<char>, PartOfSpeech, TagSet, Option<Seq<char>>),
            >::empty() =~= rows_done);
        }
        let buckets = build_buckets(&homographs);
        let td = TermDict { homographs, homographs_by_part_of_speech: buckets };
        Ok(td)
    }
}

/// The predicate "has a meaning with this part of speech".
pub open spec fn has_pos_pred(pos: PartOfSpeech) -> spec_fn(Homograph) -> bool {
    |h: Homograph| h.spec_has_pos(pos)
}

/// A copy of a homograph list that holds the same words.
pub fn clone_homographs(v: &Vec<Homograph>) -> (r: Vec<Homograph>)
    ensures
        hgs_view(r@) == hgs_view(v@),
{
    let n = v.len();
    let mut out: Vec<Homograph> = Vec::new();
    let mut i: usize = 0;
    while i < n
        invariant
            i <= n,
            n == v@.len(),
            out@.len() == i,
            forall|j: int| 0 <= j < i ==> hg_view(#[trigger] out@[j]) == hg_view(v@[j]),
        decreases n - i,
    {
        out.push(v[i].clone());
        i = i + 1;
    }
    proof {
        assert forall|j: int| 0 <= j < n implies hgs_view(out@)[j] == hgs_view(v@)[j] by {
            assert(hgs_view(out@)[j] == hg_view(out@[j]));
            assert(hgs_view(v@)[j] == hg_view(v@[j]));
        }
        assert(hgs_view(out@) =~= hgs_view(v@));
    }
    out
}

/// One step of a filtered scan: pushing a copy of a kept word keeps the
/// output's views equal to the filtered prefix's.
pub proof fn lemma_filter_scan_keep(
    all: Seq<Homograph>,
    i: int,
    pred: spec_fn(Homograph) -> bool,
    old_r: Seq<Homograph>,
    new_r: Seq<Homograph>,
    x: Homograph,
)
    requires
        0 <= i < all.len(),
        hgs_view(old_r) == hgs_view(all.take(i).filter(pred)),
        pred(all[i]),
        new_r == old_r.push(x),
        hg_view(x) == hg_view(all[i]),
    ensures
        hgs_view(new_r) == hgs_view(all.take(i + 1).filter(pred)),
{
    reveal(Seq::filter);
    assert(all.take(i + 1).drop_last() =~= all.take(i));
    assert(all.take(i + 1).last() == all[i]);
    let pref = all.take(i).filter(pred);
    let fl = pref.push(all[i]);
    assert(all.take(i + 1).filter(pred) =~= fl);
    assert(hgs_view(old_r).len() == old_r.len());
    assert(hgs_view(pref).len() == pref.len());
    assert forall|j: int| 0 <= j < new_r.len() implies hgs_view(new_r)[j] == hgs_view(
        fl,
    )[j] by {
        assert(hgs_view(new_r)[j] == hg_view(new_r[j]));
        assert(hgs_view(fl)[j] == hg_view(fl[j]));
        if j < new_r.len() - 1 {
            assert(new_r[j] == old_r[j]);
            assert(fl[j] == pref[j]);
            assert(hgs_view(old_r)[j] == hg_view(old_r[j]));
            assert(hgs_view(pref)[j] == hg_view(pref[j]));
        } else {
            assert(new_r[j] == x);
            assert(fl[j] == all[i]);
        }
    }
    assert(hgs_view(new_r) =~= hgs_view(fl));
}

/// A skipped word leaves the filtered prefix unchanged.
pub proof fn lemma_filter_scan_skip(all: Seq<Homograph>, i: int, pred: spec_fn(Homograph) -> bool)
    requires
        0 <= i < all.len(),
        !pred(all[i]),
    ensures
        all.take(i + 1).filter(pred) == all.take(i).filter(pred),
{
    reveal(Seq::filter);
    assert(all.take(i + 1).drop_last() =~= all.take(i));
    assert(all.take(i + 1).last() == all[i]);
}

/// Two predicates that agree on every homograph filter a list alike.
pub proof fn lemma_filter_equiv(
    s: Seq<Homograph>,
    p1: spec_fn(Homograph) -> bool,
    p2: spec_fn(Homograph) -> bool,
)
    requires
        forall|h: Homograph| #[trigger] p1(h) == p2(h),
    ensures
        s.filter(p1) == s.filter(p2),
    decreases s.len(),
{
    reveal(Seq::filter);
    if s.len() > 0 {
        lemma_filter_equiv(s.drop_last(), p1, p2);
    }
}

/// One raw row of an external word list, borrowed from its source text.
pub struct CPTerm<'a> {
    pub pos: &'a str,
    pub text: &'a str,
    pub key: &'a str,
    pub def: &'a str,
}

/// The part of speech at a bucket index.
fn part_of_speech_from_index(i: usize) -> (r: PartOfSpeech)
    requires
        i < PART_OF_SPEECH_COUNT,
    ensures
        r.spec_index() == i as nat,
{
    match i {
        0 => PartOfSpeech::Noun,
        1 => PartOfSpeech::Verb,
        2 => PartOfSpeech::Adjective,
        3 => PartOfSpeech::Adverb,
        4 => PartOfSpeech::Preposition,
        5 => PartOfSpeech::Interjection,
        6 => PartOfSpeech::Conjunction,
        7 => PartOfSpeech::Pronoun,
        8 => PartOfSpeech::FirstName,
        _ => PartOfSpeech::LastName,
    }
}

/// Builds the per-part-of-speech buckets, each a filtered copy of the
/// master list in master order.
fn build_buckets(homographs: &Vec<Homograph>) -> (r: Vec<Vec<Homograph>>)
    ensures
        r@.len() == PART_OF_SPEECH_COUNT,
        forall|p: PartOfSpeech|
            hgs_view(#[trigger] r@[p.spec_index() as int]@) == hgs_view(homographs@.filter(has_pos_pred(p))),
{
    let mut buckets: Vec<Vec<Homograph>> = Vec::new();
    let mut bi: usize = 0;
    while bi < PART_OF_SPEECH_COUNT
        invariant
            bi <= PART_OF_SPEECH_COUNT,
            buckets@.len() == bi,
            forall|p: PartOfSpeech|
                p.spec_index() < bi ==> hgs_view(
                    #[trigger] buckets@[p.spec_index() as int]@,
                ) == hgs_view(homographs@.filter(has_pos_pred(p))),
        decreases PART_OF_SPEECH_COUNT - bi,
    {
        let pos = part_of_speech_from_index(bi);
        let n = homographs.len();
        let mut bucket: Vec<Homograph> = Vec::new();
        let mut i: usize = 0;
        proof {
            assert(homographs@.take(0) =~= Seq::<Homograph>::empty());
            reveal(Seq::filter);
            assert(hgs_view(bucket@) =~= hgs_view(
                homographs@.take(0).filter(has_pos_pred(pos)),
            ));
        }
        while i < n
            invariant
                i <= n,
                n == homographs@.len(),
                pos.spec_index() == bi as nat,
                hgs_view(bucket@) == hgs_view(homographs@.take(i as int).filter(has_pos_pred(pos))),
            decreases n - i,
        {
            if homographs[i].has_pos(pos) {
                let ghost old_bucket = bucket@;
                let picked = homographs[i].clone();
                bucket.push(picked);
                proof {
                    lemma_filter_scan_keep(
                        homographs@,
                        i as int,
                        has_pos_pred(pos),
                        old_bucket,
                        bucket@,
                        picked,
                    );
                }
            } else {
                proof {
                    lemma_filter_scan_skip(homographs@, i as int, has_pos_pred(pos));
                }
            }
            i = i + 1;
        }
        proof {
            assert(homographs@.take(n as int) =~= homographs@);
        }
        buckets.push(bucket);
        proof {
            assert forall|p: PartOfSpeech| p.spec_index() < bi + 1 implies hgs_view(
                #[trigger] buckets@[p.spec_index() as int]@,
            ) == hgs_view(homographs@.filter(has_pos_pred(p))) by {
                if p.spec_index() < bi {
                    assert(buckets@[p.spec_index() as int]@ == buckets@.drop_last()[p.spec_index()
                        as int]@);
                } else {
                    assert(p.spec_index() == bi as nat);
                    assert(p == pos) by {
                        crate::homograph::lemma_pos_index_injective(p, pos);
                    }
                }
            }
        }
        bi = bi + 1;
    }
    buckets
}

} // verus!
