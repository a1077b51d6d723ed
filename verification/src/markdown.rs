//! The Markdown plan grammar: a single top-to-bottom scan over lines.
//!
//! `# Name` sets the plan name (later occurrences win).  `## ` opens a day
//! entry, finalizing the previous one; its header is matched against the
//! `Day N <sep> Title` pattern with the separators ` - `, ` EN DASH `,
//! fullwidth colon, `: ` tried in that order, falling back to the verbatim
//! header and the next sequential number.  Other non-empty lines accumulate
//! into the open entry's prompt, joined by single newlines.  Text with no day
//! entries is rejected.

use vstd::prelude::*;
use crate::errors::AppError;
use crate::models::ImportPlanDayItem;
use crate::models::ImportPlanRequest;
use crate::text::{char_ci_eq, find_pat, find_pattern, has_prefix, has_prefix_spec, parse_i32,
    parse_i32_spec, trim, trim_spec, lemma_find_pat_ensures};
use vstd::string::*;

verus! {

/// Index of the first newline in `s`, or `s.len()` if there is none.
pub open spec fn first_nl(s: Seq<char>) -> int
    decreases s.len(),
{
    if s.len() == 0 {
        0
    } else if s[0] == '\n' {
        0
    } else {
        1 + first_nl(s.drop_first())
    }
}

proof fn lemma_first_nl_bounds(s: Seq<char>)
    ensures
        0 <= first_nl(s) <= s.len(),
        forall|k: int| 0 <= k < first_nl(s) ==> s[k] != '\n',
        first_nl(s) < s.len() ==> s[first_nl(s)] == '\n',
    decreases s.len(),
{
    if s.len() > 0 && s[0] != '\n' {
        lemma_first_nl_bounds(s.drop_first());
        assert forall|k: int| 0 <= k < first_nl(s) implies s[k] != '\n' by {
            if k > 0 {
                assert(s[k] == s.drop_first()[k - 1]);
            }
        }
    }
}

proof fn lemma_first_nl_unique(s: Seq<char>, i: int)
    requires
        0 <= i <= s.len(),
        forall|k: int| 0 <= k < i ==> s[k] != '\n',
        i < s.len() ==> s[i] == '\n',
    ensures
        first_nl(s) == i,
{
    lemma_first_nl_bounds(s);
}

/// A line's trailing carriage return, part of a `\r\n` ending, is stripped.
pub open spec fn strip_cr(l: Seq<char>) -> Seq<char> {
    if l.len() > 0 && l.last() == '\r' {
        l.drop_last()
    } else {
        l
    }
}

/// The lines of `s`, as `str::lines` yields them: split at `\n`, a `\r\n`
/// ending stripped, no final empty line after a trailing newline.
pub open spec fn lines_spec(s: Seq<char>) -> Seq<Seq<char>>
    decreases s.len(),
    via lines_spec_dec
{
    if s.len() == 0 {
        Seq::empty()
    } else {
        let i = first_nl(s);
        if i == s.len() {
            seq![s]
        } else {
            seq![strip_cr(s.take(i))] + lines_spec(s.skip(i + 1))
        }
    }
}

#[via_fn]
proof fn lines_spec_dec(s: Seq<char>) {
    lemma_first_nl_bounds(s);
}

/// One parsed day entry, at the specification level.
#[verifier::ext_equal]
pub ghost struct MdDay {
    pub day: int,
    pub title: Seq<char>,
    pub prompt: Seq<char>,
}

/// The scanner state: plan name seen so far, finished entries, the open
/// entry if any, and its accumulating prompt.
#[verifier::ext_equal]
pub ghost struct MdState {
    pub name: Seq<char>,
    pub days: Seq<MdDay>,
    pub cur: Option<(int, Seq<char>)>,
    pub prompt: Seq<char>,
}

pub open spec fn md_init() -> MdState {
    MdState { name: Seq::empty(), days: Seq::empty(), cur: None, prompt: Seq::empty() }
}

/// Close the open entry, if any: its trimmed prompt joins the finished list.
pub open spec fn md_finalize(st: MdState) -> MdState {
    match st.cur {
        None => st,
        Some((d, t)) => MdState {
            name: st.name,
            days: st.days.push(MdDay { day: d, title: t, prompt: trim_spec(st.prompt) }),
            cur: None,
            prompt: Seq::empty(),
        },
    }
}

/// Split a day header's remainder at the first separator, in priority order.
pub open spec fn sep_split(rest: Seq<char>) -> Option<(Seq<char>, Seq<char>)> {
    match find_pat(rest, " - "@) {
        Some(p) => Some((rest.take(p), trim_spec(rest.skip(p + 3)))),
        None => match find_pat(rest, " \u{2013} "@) {
            Some(p) => Some((rest.take(p), trim_spec(rest.skip(p + 3)))),
            None => match find_pat(rest, "\u{ff1a}"@) {
                Some(p) => Some((rest.take(p), trim_spec(rest.skip(p + 1)))),
                None => match find_pat(rest, ": "@) {
                    Some(p) => Some((rest.take(p), trim_spec(rest.skip(p + 2)))),
                    None => None,
                },
            },
        },
    }
}

/// The `Day N <sep> Title` pattern: a case-insensitive `day` prefix with an
/// optional space, a separator, and an integer before it.
pub open spec fn day_header_spec(h: Seq<char>) -> Option<(int, Seq<char>)> {
    if h.len() >= 3 && char_ci_eq(h[0], 'd') && char_ci_eq(h[1], 'a') && char_ci_eq(h[2], 'y') {
        let rest = if h.len() >= 4 && h[3] == ' ' {
            h.skip(4)
        } else {
            h.skip(3)
        };
        match sep_split(rest) {
            None => None,
            Some((num, title)) => match parse_i32_spec(trim_spec(num)) {
                Some(v) => Some((v, title)),
                None => None,
            },
        }
    } else {
        None
    }
}

/// One line of the scan.
pub open spec fn md_step(st: MdState, line: Seq<char>) -> MdState {
    let t = trim_spec(line);
    if has_prefix_spec(t, "# "@) && !has_prefix_spec(t, "## "@) {
        MdState { name: trim_spec(t.skip(2)), days: st.days, cur: st.cur, prompt: st.prompt }
    } else if has_prefix_spec(t, "## "@) {
        let st1 = md_finalize(st);
        let header = trim_spec(t.skip(3));
        match day_header_spec(header) {
            Some((d, title)) => MdState {
                name: st1.name,
                days: st1.days,
                cur: Some((d, title)),
                prompt: st1.prompt,
            },
            None => MdState {
                name: st1.name,
                days: st1.days,
                cur: Some((st1.days.len() as int + 1, header)),
                prompt: st1.prompt,
            },
        }
    } else if st.cur is Some && t.len() > 0 {
        if st.prompt.len() == 0 {
            MdState { name: st.name, days: st.days, cur: st.cur, prompt: t }
        } else {
            MdState { name: st.name, days: st.days, cur: st.cur, prompt: st.prompt + seq!['\n'] + t }
        }
    } else {
        st
    }
}

pub open spec fn md_run(lines: Seq<Seq<char>>, st: MdState) -> MdState
    decreases lines.len(),
{
    if lines.len() == 0 {
        st
    } else {
        md_run(lines.drop_first(), md_step(st, lines.first()))
    }
}

/// The scan of a whole text: every line processed, then the open entry
/// closed.
pub open spec fn md_result(content: Seq<char>) -> MdState {
    md_finalize(md_run(lines_spec(content), md_init()))
}

/// The plan name: the last `# ` heading, or the fallback when none was seen.
pub open spec fn md_plan_name(content: Seq<char>) -> Seq<char> {
    if md_result(content).name.len() == 0 {
        "Imported Writing Plan"@
    } else {
        md_result(content).name
    }
}

/// The spec-level image of a produced day item.
pub open spec fn item_view(x: ImportPlanDayItem) -> MdDay {
    MdDay { day: x.day as int, title: x.title@, prompt: x.prompt@ }
}

pub open spec fn cur_view(c: Option<(i32, String)>) -> Option<(int, Seq<char>)> {
    match c {
        None => None,
        Some((d, t)) => Some((d as int, t@)),
    }
}

/// The spec-level image of a produced day list.
pub open spec fn days_view(v: Seq<ImportPlanDayItem>) -> Seq<MdDay> {
    v.map_values(|x: ImportPlanDayItem| item_view(x))
}

/// Parse Markdown plan text into a structured import request: the plan name
/// from the last `# ` heading (with a fallback), the given start date, and
/// the day entries the scan produced.  Fails exactly when the text yields no
/// day entries.
pub fn parse_markdown_plan(content: &str, start_date: &str) -> (r: Result<
    ImportPlanRequest,
    AppError,
>)
    requires
        content@.len() <= 0x7fff_0000,
    ensures
        match r {
            Ok(req) => {
                &&& md_result(content@).days.len() > 0
                &&& req.name@ == md_plan_name(content@)
                &&& req.theme is None
                &&& req.start_date@ == start_date@
                &&& days_view(req.days@) == md_result(content@).days
            },
            Err(e) => md_result(content@).days.len() == 0 && e is MarkdownParse,
        },
{
    let n = content.unicode_len();
    let mut name = String::new();
    let mut days: Vec<ImportPlanDayItem> = Vec::new();
    let mut cur: Option<(i32, String)> = None;
    let mut prompt = String::new();
    let mut p: usize = 0;
    let ghost goal = md_run(lines_spec(content@), md_init());
    let ghost mut lines_done: int = 0;
    proof {
        assert(content@.skip(0) =~= content@);
        assert(MdState { name: name@, days: days_view(days@), cur: cur_view(cur), prompt: prompt@ }
            =~= md_init());
    }
    while p < n
        invariant
            0 <= p <= n,
            n == content@.len(),
            n <= 0x7fff_0000,
            goal == md_run(lines_spec(content@), md_init()),
            md_run(
                lines_spec(content@.skip(p as int)),
                MdState { name: name@, days: days_view(days@), cur: cur_view(cur), prompt: prompt@ },
            ) == goal,
            days@.len() + (if cur is Some {
                1int
            } else {
                0int
            }) <= lines_done,
            lines_done <= p,
        decreases n - p,
    {
        let ghost st_pre = MdState {
            name: name@,
            days: days_view(days@),
            cur: cur_view(cur),
            prompt: prompt@,
        };
        let mut e = p;
        while e < n && content.get_char(e) != '\n'
            invariant
                p <= e <= n,
                n == content@.len(),
                forall|k: int| p <= k < e ==> content@[k] != '\n',
            decreases n - e,
        {
            e = e + 1;
        }
        proof {
            assert forall|k: int| 0 <= k < e - p implies content@.skip(p as int)[k] != '\n' by {
                assert(content@.skip(p as int)[k] == content@[p + k]);
            }
            if e < n {
                assert(content@.skip(p as int)[e - p] == content@[e as int]);
            }
            lemma_first_nl_unique(content@.skip(p as int), e - p);
        }
        let line_end = if e < n && e > p && content.get_char(e - 1) == '\r' {
            e - 1
        } else {
            e
        };
        let line = content.substring_char(p, line_end);
        proof {
            let s = content@.skip(p as int);
            if e < n {
                let raw = s.take(e - p);
                assert(raw =~= content@.subrange(p as int, e as int));
                if e > p && content@[e - 1] == '\r' {
                    assert(raw.last() == content@[e - 1]);
                    assert(line@ =~= raw.drop_last());
                } else {
                    if raw.len() > 0 {
                        assert(raw.last() == content@[e - 1]);
                    }
                    assert(line@ =~= raw);
                }
                assert(line@ == strip_cr(raw));
                assert(s.skip(e - p + 1) =~= content@.skip(e + 1));
                assert(lines_spec(s) == seq![line@] + lines_spec(content@.skip(e + 1)));
            } else {
                assert(line@ =~= s);
                assert(lines_spec(s) == seq![line@]);
            }
        }
        let t = trim(line);
        let tn = t.unicode_len();
        if has_prefix(t, "# ") && !has_prefix(t, "## ") {
            proof {
                reveal_strlit("# ");
            }
            let new_name = String::from_str(trim(t.substring_char(2, tn)));
            name = new_name;
            proof {
                assert(t@.subrange(2, t@.len() as int) =~= t@.skip(2));
            }
        } else if has_prefix(t, "## ") {
            proof {
                reveal_strlit("## ");
            }
            let finished = cur;
            cur = None;
            if let Some((d, ttl)) = finished {
                let pr = String::from_str(trim(prompt.as_str()));
                days.push(ImportPlanDayItem { day: d, title: ttl, prompt: pr });
                prompt = String::new();
            }
            proof {
                assert(days_view(days@) =~= md_finalize(st_pre).days);
            }
            let header = String::from_str(trim(t.substring_char(3, tn)));
            proof {
                assert(t@.subrange(3, t@.len() as int) =~= t@.skip(3));
            }
            match parse_day_header(header.as_str()) {
                Some((d, ttl)) => {
                    cur = Some((d, ttl));
                },
                None => {
                    let fb: i32 = (days.len() + 1) as i32;
                    cur = Some((fb, header));
                },
            }
        } else {
            if cur.is_some() && tn > 0 {
                if prompt.as_str().unicode_len() == 0 {
                    prompt = String::from_str(t);
                } else {
                    prompt.append("\n");
                    prompt.append(t);
                    proof {
                        reveal_strlit("\n");
                        assert("\n"@ =~= seq!['\n']);
                    }
                }
            }
        }
        proof {
            assert(MdState {
                name: name@,
                days: days_view(days@),
                cur: cur_view(cur),
                prompt: prompt@,
            } =~= md_step(st_pre, line@));
            if e < n {
                assert(lines_spec(content@.skip(p as int)).drop_first() =~= lines_spec(
                    content@.skip(e + 1),
                ));
                assert(lines_spec(content@.skip(p as int)).first() == line@);
            } else {
                assert(lines_spec(content@.skip(p as int)).drop_first()
                    =~= Seq::<Seq<char>>::empty());
            }
            lines_done = lines_done + 1;
        }
        p = if e < n {
            e + 1
        } else {
            n
        };
        proof {
            if p == n {
                assert(content@.skip(n as int) =~= Seq::<char>::empty());
            }
        }
    }
    proof {
        assert(content@.skip(n as int) =~= Seq::<char>::empty());
        assert(md_run(
            lines_spec(content@.skip(n as int)),
            MdState { name: name@, days: days_view(days@), cur: cur_view(cur), prompt: prompt@ },
        ) == goal);
    }
    let ghost st_end = MdState {
        name: name@,
        days: days_view(days@),
        cur: cur_view(cur),
        prompt: prompt@,
    };
    let finished = cur;
    if let Some((d, ttl)) = finished {
        let pr = String::from_str(trim(prompt.as_str()));
        days.push(ImportPlanDayItem { day: d, title: ttl, prompt: pr });
    }
    proof {
        assert(days_view(days@) =~= md_finalize(st_end).days);
        assert(md_finalize(st_end).days == md_result(content@).days);
    }
    if days.len() == 0 {
        return Err(AppError::MarkdownParse(String::from_str(
            "no day entries found (need '## Day N - Title' headings)",
        )));
    }
    let final_name = if name.as_str().unicode_len() == 0 {
        String::from_str("Imported Writing Plan")
    } else {
        name
    };
    proof {
        assert(md_result(content@).name == st_end.name);
    }
    Ok(
        ImportPlanRequest {
            name: final_name,
            theme: None,
            start_date: String::from_str(start_date),
            days,
        },
    )
}

/// Parse a `Day N <sep> Title` header; `None` when the pattern does not
/// match.
pub fn parse_day_header(header: &str) -> (r: Option<(i32, String)>)
    ensures
        cur_view(r) == day_header_spec(header@),
{
    let n = header.unicode_len();
    if n < 3 {
        return None;
    }
    let c0 = header.get_char(0);
    let c1 = header.get_char(1);
    let c2 = header.get_char(2);
    let d0 = c0 == 'd' || c0 == 'D';
    let d1 = c1 == 'a' || c1 == 'A';
    let d2 = c2 == 'y' || c2 == 'Y';
    proof {
        assert(char_ci_eq(c0, 'd') == (c0 == 'd' || c0 == 'D'));
        assert(char_ci_eq(c1, 'a') == (c1 == 'a' || c1 == 'A'));
        assert(char_ci_eq(c2, 'y') == (c2 == 'y' || c2 == 'Y'));
    }
    if !(d0 && d1 && d2) {
        return None;
    }
    let skip_n: usize = if n >= 4 && header.get_char(3) == ' ' {
        4
    } else {
        3
    };
    let rest = header.substring_char(skip_n, n);
    proof {
        assert(rest@ =~= header@.skip(skip_n as int));
    }
    let found = split_at_separator(rest);
    match found {
        None => None,
        Some((num, title)) => {
            match parse_i32(trim(num.as_str())) {
                Some(v) => Some((v, title)),
                None => None,
            }
        },
    }
}

/// Split at the first separator in priority order, returning the number part
/// and the trimmed title part.
fn split_at_separator(rest: &str) -> (r: Option<(String, String)>)
    ensures
        match r {
            Some((num, title)) => sep_split(rest@) == Some((num@, title@)),
            None => sep_split(rest@) is None,
        },
{
    let n = rest.unicode_len();
    if let Some(p) = find_pattern(rest, " - ") {
        proof {
            lemma_find_pat_ensures(rest@, " - "@);
            reveal_strlit(" - ");
        }
        let num = String::from_str(rest.substring_char(0, p));
        let title = String::from_str(trim(rest.substring_char(p + 3, n)));
        proof {
            assert(num@ =~= rest@.take(p as int));
            assert(rest@.subrange(p + 3, n as int) =~= rest@.skip(p + 3));
        }
        return Some((num, title));
    }
    if let Some(p) = find_pattern(rest, " \u{2013} ") {
        proof {
            lemma_find_pat_ensures(rest@, " \u{2013} "@);
            reveal_strlit(" \u{2013} ");
        }
        let num = String::from_str(rest.substring_char(0, p));
        let title = String::from_str(trim(rest.substring_char(p + 3, n)));
        proof {
            assert(num@ =~= rest@.take(p as int));
            assert(rest@.subrange(p + 3, n as int) =~= rest@.skip(p + 3));
        }
        return Some((num, title));
    }
    if let Some(p) = find_pattern(rest, "\u{ff1a}") {
        proof {
            lemma_find_pat_ensures(rest@, "\u{ff1a}"@);
            reveal_strlit("\u{ff1a}");
        }
        let num = String::from_str(rest.substring_char(0, p));
        let title = String::from_str(trim(rest.substring_char(p + 1, n)));
        proof {
            assert(num@ =~= rest@.take(p as int));
            assert(rest@.subrange(p + 1, n as int) =~= rest@.skip(p + 1));
        }
        return Some((num, title));
    }
    if let Some(p) = find_pattern(rest, ": ") {
        proof {
            lemma_find_pat_ensures(rest@, ": "@);
            reveal_strlit(": ");
        }
        let num = String::from_str(rest.substring_char(0, p));
        let title = String::from_str(trim(rest.substring_char(p + 2, n)));
        proof {
            assert(num@ =~= rest@.take(p as int));
            assert(rest@.subrange(p + 2, n as int) =~= rest@.skip(p + 2));
        }
        return Some((num, title));
    }
    None
}

} // verus!
