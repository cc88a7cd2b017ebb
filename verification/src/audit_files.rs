//! The combat audit's files: the configuration text, the daily file names
//! and which of them retention removes.
use vstd::prelude::*;
use crate::clock::{utc_calendar_date, utc_date, LAST_REPRESENTABLE_SECOND};
use crate::combat_audit::{AuditModel, CombatAudit, Config};
use crate::keyed::IdSet;
use crate::text::{chars_of, less, seq_less, trim, trimmed, push_char, push_zero_padded, zero_padded};
use vstd::string::*;

verus! {

/// Milliseconds in a day.
pub const DAY_MS: u64 = 86_400_000;
/// Characters one configuration may target.
pub const MAX_AUDITED: usize = 128;

/// The last millisecond `time` can date.
pub open spec fn datable(ms: u64) -> bool {
    ms / 1000 <= LAST_REPRESENTABLE_SECOND
}

/// `YYYY-MM-DD` of the UTC day holding millisecond `ms`.
pub open spec fn date_text(ms: u64) -> Seq<char> {
    let d = utc_calendar_date((ms / 1000) as i64);
    zero_padded(d.0 as nat, 4) + seq!['-'] + zero_padded(d.1 as nat, 2) + seq!['-'] + zero_padded(d.2 as nat, 2)
}

/// The UTC day of millisecond `ms` as `YYYY-MM-DD`.
pub fn date(ms: u64) -> (s: String)
    requires
        datable(ms),
    ensures
        s@ == date_text(ms),
{
    let (year, month, day) = utc_date((ms / 1000) as i64);
    let mut s = String::new();
    push_zero_padded(&mut s, year as u64, 4);
    push_char(&mut s, '-');
    push_zero_padded(&mut s, month as u64, 2);
    push_char(&mut s, '-');
    push_zero_padded(&mut s, day as u64, 2);
    proof {
        assert(s@ =~= date_text(ms));
    }
    s
}

/// The first day retention keeps: `days` days back including today.
pub fn first_kept_date(now: u64, days: u16) -> (s: String)
    requires
        days >= 1,
        datable(now),
    ensures
        s@ == date_text(if now >= (days - 1) * DAY_MS { (now - (days - 1) * DAY_MS) as u64 } else { 0u64 }),
{
    let back = (days as u64 - 1) * DAY_MS;
    let from = if now >= back { now - back } else { 0 };
    date(from)
}

/// The day of a prune key.
pub open spec fn prune_key_day(k: (String, u16)) -> Seq<char> {
    k.0@
}

/// The retention of a prune key.
pub open spec fn prune_key_days(k: (String, u16)) -> u16 {
    k.1
}

impl CombatAudit {
    /// The (day, retention) a prune is due for at `now`, unless already done.
    pub fn prune_due(&self, now: u64) -> (r: Option<(String, u16)>)
        requires
            datable(now),
        ensures
            match self.config {
                None => r is None,
                Some(c) => {
                    let done = match self.last_pruned {
                        Some(k) => k.0@ == date_text(now) && k.1 == c.retention_days,
                        None => false,
                    };
                    if done { r is None } else { r is Some && prune_key_day(r->0) == date_text(now) && prune_key_days(r->0) == c.retention_days }
                },
            },
    {
        let days = match &self.config {
            Some(c) => c.retention_days,
            None => return None,
        };
        let today = date(now);
        let done = match &self.last_pruned {
            Some(k) => k.0.eq(&today) && k.1 == days,
            None => false,
        };
        if done { None } else { Some((today, days)) }
    }

    /// Record that the prune for `key` ran.
    pub fn mark_pruned(&mut self, key: (String, u16))
        ensures
            final(self)@ == (AuditModel { last_pruned: Some((key.0@, key.1)), ..old(self)@ }),
            final(self).last_pruned == Some(key),
    {
        self.last_pruned = Some(key);
    }
}

pub open spec fn is_digit(c: char) -> bool {
    '0' <= c && c <= '9'
}

/// The name of one day's audit file, `combat-audit-YYYY-MM-DD.jsonl`, holds
/// a date before `first_kept`.
pub open spec fn expired_file_name(name: Seq<char>, first_kept: Seq<char>) -> bool {
    let prefix = seq!['c', 'o', 'm', 'b', 'a', 't', '-', 'a', 'u', 'd', 'i', 't', '-'];
    let suffix = seq!['.', 'j', 's', 'o', 'n', 'l'];
    &&& name.len() == prefix.len() + 10 + suffix.len()
    &&& name.subrange(0, 13) == prefix
    &&& name.subrange(23, 29) == suffix
    &&& name[17] == '-'
    &&& name[20] == '-'
    &&& forall|i: int| 13 <= i < 23 && i != 17 && i != 20 ==> is_digit(#[trigger] name[i])
    &&& seq_less(name.subrange(13, 23), first_kept)
}

/// Whether retention removes the file called `name` when the first day it
/// keeps is `first_kept`: only dated audit files before that day go.
pub fn is_expired_audit_file(name: &str, first_kept: &str) -> (r: bool)
    ensures
        r == expired_file_name(name@, first_kept@),
{
    let cs = chars_of(name);
    proof {
        reveal_strlit("combat-audit-");
        reveal_strlit(".jsonl");
    }
    let prefix = chars_of("combat-audit-");
    let suffix = chars_of(".jsonl");
    assert(prefix@ =~= seq!['c', 'o', 'm', 'b', 'a', 't', '-', 'a', 'u', 'd', 'i', 't', '-']);
    assert(suffix@ =~= seq!['.', 'j', 's', 'o', 'n', 'l']);
    if cs.len() != 29 {
        return false;
    }
    let mut i: usize = 0;
    while i < 13
        invariant
            cs@ == name@,
            cs@.len() == 29,
            prefix@ == seq!['c', 'o', 'm', 'b', 'a', 't', '-', 'a', 'u', 'd', 'i', 't', '-'],
            i <= 13,
            forall|j: int| 0 <= j < i ==> cs@[j] == prefix@[j],
        decreases 13 - i,
    {
        if cs[i] != prefix[i] {
            proof {
                let sub = cs@.subrange(0, 13);
                assert(sub[i as int] == cs@[i as int]);
                assert(sub != prefix@);
            }
            return false;
        }
        i = i + 1;
    }
    assert(cs@.subrange(0, 13) =~= prefix@);
    let mut k: usize = 0;
    while k < 6
        invariant
            cs@ == name@,
            cs@.len() == 29,
            suffix@ == seq!['.', 'j', 's', 'o', 'n', 'l'],
            cs@.subrange(0, 13) == seq!['c', 'o', 'm', 'b', 'a', 't', '-', 'a', 'u', 'd', 'i', 't', '-'],
            k <= 6,
            forall|j: int| 0 <= j < k ==> cs@[23 + j] == suffix@[j],
        decreases 6 - k,
    {
        if cs[23 + k] != suffix[k] {
            proof {
                let sub = cs@.subrange(23, 29);
                assert(sub[k as int] == cs@[23 + k]);
                assert(sub != suffix@);
            }
            return false;
        }
        k = k + 1;
    }
    assert(cs@.subrange(23, 29) =~= suffix@);
    if cs[17] != '-' || cs[20] != '-' {
        return false;
    }
    let mut d: usize = 13;
    while d < 23
        invariant
            cs@ == name@,
            cs@.len() == 29,
            13 <= d <= 23,
            forall|j: int| 13 <= j < d && j != 17 && j != 20 ==> is_digit(#[trigger] cs@[j]),
        decreases 23 - d,
    {
        if d != 17 && d != 20 && !('0' <= cs[d] && cs[d] <= '9') {
            return false;
        }
        d = d + 1;
    }
    let mut day: Vec<char> = Vec::new();
    let mut e: usize = 13;
    while e < 23
        invariant
            cs@.len() == 29,
            13 <= e <= 23,
            day@ == cs@.subrange(13, e as int),
        decreases 23 - e,
    {
        day.push(cs[e]);
        proof { assert(day@ =~= cs@.subrange(13, e + 1)); }
        e = e + 1;
    }
    let kept = chars_of(first_kept);
    less(&day, &kept)
}

/// Where the first line of `t` ends: its first newline, or its end.
pub open spec fn first_newline(t: Seq<char>) -> int {
    if exists|i: int| 0 <= i < t.len() && t[i] == '\n' {
        choose|i: int| 0 <= i < t.len() && t[i] == '\n' && forall|j: int| 0 <= j < i ==> t[j] != '\n'
    } else {
        t.len() as int
    }
}

#[verifier::opaque]
/// The lines of `t` as `str::lines` yields them, up to the carriage return
/// ending a line, which trimming removes anyway: the pieces between
/// newlines, and no empty line after a final newline.
pub open spec fn text_lines(t: Seq<char>) -> Seq<Seq<char>>
    decreases t.len(),
{
    if t.len() == 0 {
        Seq::empty()
    } else {
        let j = first_newline(t);
        if 0 <= j < t.len() {
            seq![t.subrange(0, j)] + text_lines(t.subrange(j + 1, t.len() as int))
        } else {
            seq![t]
        }
    }
}

pub open spec fn digit_value(c: char) -> int {
    (c as u32) - ('0' as u32)
}

/// The value of a string of decimal digits.
pub open spec fn digits_value(s: Seq<char>) -> int
    decreases s.len(),
{
    if s.len() == 0 { 0 } else { digits_value(s.drop_last()) * 10 + digit_value(s.last()) }
}

/// `s` without a leading `+`.
pub open spec fn unsigned_part(s: Seq<char>) -> Seq<char> {
    if s.len() > 0 && s[0] == '+' { s.drop_first() } else { s }
}

/// Every character of `s` is a decimal digit.
pub open spec fn all_digits(s: Seq<char>) -> bool {
    forall|i: int| 0 <= i < s.len() ==> is_digit(#[trigger] s[i])
}

/// The positive `i64` a (trimmed) line spells in decimal, with an optional
/// `+`; `None` for anything else, a negative number or zero included.
pub open spec fn positive_id(s: Seq<char>) -> Option<i64> {
    let digits = unsigned_part(s);
    if s.len() > 0 && s[0] == '-' {
        None
    } else if digits.len() == 0 || !all_digits(digits) {
        None
    } else if 0 < digits_value(digits) <= i64::MAX {
        Some(digits_value(digits) as i64)
    } else {
        None
    }
}

/// Why a combat audit configuration was refused.
pub enum ConfigError {
    /// Retention must be at least one day.
    RetentionNotPositive,
    /// The line (numbered from 1) is neither blank, a comment nor a
    /// positive character id.
    InvalidLine(usize),
    /// More than `MAX_AUDITED` distinct characters.
    TooManyCharacters,
}

#[verifier::opaque]
/// Reading lines `i..` with `ids` (of which there are `count`) collected so
/// far: blank and `#` lines are skipped, anything else must be a positive
/// character id.
pub open spec fn parse_lines(lines: Seq<Seq<char>>, i: int, ids: Set<i64>, count: nat) -> Result<Set<i64>, ConfigError>
    decreases lines.len() - i,
{
    if i < 0 || i >= lines.len() {
        Ok(ids)
    } else {
        let l = trim(lines[i]);
        if l.len() == 0 || l[0] == '#' {
            parse_lines(lines, i + 1, ids, count)
        } else {
            match positive_id(l) {
                None => Err(ConfigError::InvalidLine((i + 1) as usize)),
                Some(id) => {
                    let count2 = if ids.contains(id) { count } else { count + 1 };
                    if count2 > MAX_AUDITED {
                        Err(ConfigError::TooManyCharacters)
                    } else {
                        parse_lines(lines, i + 1, ids.insert(id), count2)
                    }
                },
            }
        }
    }
}

/// What a configuration text with `retention_days` yields.
pub open spec fn config_from_text(text: Seq<char>, retention_days: u16) -> Result<Set<i64>, ConfigError> {
    if retention_days == 0 {
        Err(ConfigError::RetentionNotPositive)
    } else {
        parse_lines(text_lines(text), 0, Set::empty(), 0)
    }
}

pub open spec fn config_result_view(r: Result<Config, ConfigError>) -> Result<Set<i64>, ConfigError> {
    match r {
        Ok(c) => Ok(c.character_ids@),
        Err(e) => Err(e),
    }
}

proof fn lemma_digits_nonneg(s: Seq<char>)
    requires
        forall|i: int| 0 <= i < s.len() ==> is_digit(#[trigger] s[i]),
    ensures
        digits_value(s) >= 0,
    decreases s.len(),
{
    if s.len() > 0 {
        lemma_digits_nonneg(s.drop_last());
    }
}

proof fn lemma_digits_monotone(s: Seq<char>, k: int)
    requires
        0 <= k <= s.len(),
        forall|i: int| 0 <= i < s.len() ==> is_digit(#[trigger] s[i]),
    ensures
        digits_value(s) >= digits_value(s.subrange(0, k)),
    decreases s.len() - k,
{
    if k == s.len() {
        assert(s.subrange(0, k) =~= s);
    } else {
        let t = s.drop_last();
        lemma_digits_monotone(t, k);
        assert(t.subrange(0, k) =~= s.subrange(0, k));
        lemma_digits_nonneg(t);
    }
}

/// The positive id spelled by `cs[a..b]`, if any.
fn parse_positive_id(cs: &Vec<char>, a: usize, b: usize) -> (r: Option<i64>)
    requires
        a <= b <= cs@.len(),
    ensures
        r == positive_id(cs@.subrange(a as int, b as int)),
{
    let ghost s = cs@.subrange(a as int, b as int);
    if a < b && cs[a] == '-' {
        proof { assert(s[0] == cs@[a as int]); }
        return None;
    }
    proof {
        if a < b { assert(s[0] == cs@[a as int]); }
    }
    let d = if a < b && cs[a] == '+' { a + 1 } else { a };
    let ghost digits = cs@.subrange(d as int, b as int);
    proof {
        assert(digits =~= if s.len() > 0 && s[0] == '+' { s.drop_first() } else { s });
    }
    if d == b {
        return None;
    }
    let mut acc: u128 = 0;
    let mut too_big = false;
    let mut k = d;
    while k < b
        invariant
            d <= k <= b,
            a <= d,
            b <= cs@.len(),
            s == cs@.subrange(a as int, b as int),
            !(s.len() > 0 && s[0] == '-'),
            digits == (if s.len() > 0 && s[0] == '+' { s.drop_first() } else { s }),
            digits == cs@.subrange(d as int, b as int),
            forall|i: int| d <= i < k ==> is_digit(#[trigger] cs@[i]),
            !too_big ==> acc == digits_value(cs@.subrange(d as int, k as int)),
            !too_big ==> acc <= i64::MAX,
            too_big ==> digits_value(cs@.subrange(d as int, k as int)) > i64::MAX
                || exists|i: int| d <= i < k && !is_digit(#[trigger] cs@[i]),
        decreases b - k,
    {
        let c = cs[k];
        if !('0' <= c && c <= '9') {
            proof {
                assert(digits[k - d] == c);
                assert(!is_digit(digits[k - d]));
                assert(digits == unsigned_part(s));
                assert(!all_digits(digits));
            }
            return None;
        }
        proof {
            assert(cs@.subrange(d as int, k + 1).drop_last() =~= cs@.subrange(d as int, k as int));
        }
        if !too_big {
            acc = acc * 10 + ((c as u32) - ('0' as u32)) as u128;
            if acc > i64::MAX as u128 {
                too_big = true;
            }
        } else {
            proof {
                let pre = cs@.subrange(d as int, k + 1);
                assert forall|i: int| 0 <= i < pre.len() implies is_digit(#[trigger] pre[i]) by {
                    assert(pre[i] == cs@[d + i]);
                }
                lemma_digits_monotone(pre, k - d);
                assert(pre.subrange(0, k - d) =~= cs@.subrange(d as int, k as int));
            }
        }
        k = k + 1;
    }
    proof {
        assert(cs@.subrange(d as int, b as int) =~= digits);
        assert forall|i: int| 0 <= i < digits.len() implies is_digit(#[trigger] digits[i]) by {
            assert(digits[i] == cs@[d + i]);
        }
    }
    if too_big || acc == 0 {
        None
    } else {
        Some(acc as i64)
    }
}

/// Where the line starting at `start` ends: the next newline or the end.
fn line_end(cs: &Vec<char>, start: usize) -> (end: usize)
    requires
        start < cs@.len(),
    ensures
        start <= end <= cs@.len(),
        ({
            let rest = cs@.subrange(start as int, cs@.len() as int);
            let j = end - start;
            &&& text_lines(rest) == if end < cs@.len() {
                seq![cs@.subrange(start as int, end as int)] + text_lines(cs@.subrange(end + 1, cs@.len() as int))
            } else {
                seq![cs@.subrange(start as int, end as int)]
            }
        }),
{
    let n = cs.len();
    let mut end = start;
    while end < n && cs[end] != '\n'
        invariant
            start <= end <= n,
            n == cs@.len(),
            forall|i: int| start <= i < end ==> cs@[i] != '\n',
        decreases n - end,
    {
        end = end + 1;
    }
    proof {
        reveal(text_lines);
        let rest = cs@.subrange(start as int, n as int);
        let j = first_newline(rest);
        if end < n {
            assert(rest[end - start] == '\n');
            let c = choose|i: int| 0 <= i < rest.len() && rest[i] == '\n' && forall|k: int| 0 <= k < i ==> rest[k] != '\n';
            if c < end - start { assert(cs@[start + c] == rest[c]); }
            if c > end - start { assert(rest[end - start] != '\n'); }
            assert(j == end - start);
            assert(rest.subrange(0, j) =~= cs@.subrange(start as int, end as int));
            assert(rest.subrange(j + 1, rest.len() as int) =~= cs@.subrange(end + 1, n as int));
        } else {
            assert forall|i: int| 0 <= i < rest.len() implies rest[i] != '\n' by {
                assert(rest[i] == cs@[start + i]);
            }
            assert(j == rest.len());
            assert(rest =~= cs@.subrange(start as int, end as int));
        }
    }
    end
}

/// Apply line `line_no` (`cs[start..end]`) of `all` to the ids read so far.
fn apply_line(cs: &Vec<char>, start: usize, end: usize, ids: &mut IdSet, Ghost(all): Ghost<Seq<Seq<char>>>, line_no: usize)
    -> (r: Result<(), ConfigError>)
    requires
        start <= end <= cs@.len(),
        0 <= line_no < all.len(),
        line_no < usize::MAX,
        all[line_no as int] == cs@.subrange(start as int, end as int),
        old(ids).wf(),
        old(ids).ids@.len() <= MAX_AUDITED,
    ensures
        match r {
            Ok(()) => {
                &&& final(ids).wf()
                &&& final(ids).ids@.len() <= MAX_AUDITED
                &&& parse_lines(all, line_no as int, old(ids)@, old(ids).ids@.len())
                    == parse_lines(all, line_no + 1, final(ids)@, final(ids).ids@.len())
            },
            Err(e) => parse_lines(all, line_no as int, old(ids)@, old(ids).ids@.len()) == Err::<Set<i64>, ConfigError>(e),
        },
{
    let (a, b) = trimmed(cs, start, end);
    let ghost l = cs@.subrange(a as int, b as int);
    proof {
        reveal(parse_lines);
        if a < b { assert(l[0] == cs@[a as int]); }
    }
    if a == b || cs[a] == '#' {
        return Ok(());
    }
    match parse_positive_id(cs, a, b) {
        None => Err(ConfigError::InvalidLine(line_no + 1)),
        Some(id) => {
            ids.insert(id);
            if ids.len() > MAX_AUDITED {
                Err(ConfigError::TooManyCharacters)
            } else {
                Ok(())
            }
        },
    }
}

/// Read a combat audit configuration: one positive character id per line,
/// blank lines and `#` comments ignored, at most `MAX_AUDITED` distinct ids,
/// and a retention of at least one day. The first offending line (numbered
/// from 1) is reported.
pub fn parse_config(text: &str, retention_days: u16) -> (r: Result<Config, ConfigError>)
    ensures
        config_result_view(r) == config_from_text(text@, retention_days),
        r matches Ok(c) ==> c.wf() && c.retention_days == retention_days,
{
    if retention_days == 0 {
        return Err(ConfigError::RetentionNotPositive);
    }
    let cs = chars_of(text);
    let n = cs.len();
    let ghost all = text_lines(cs@);
    let mut ids = IdSet::new();
    let mut start: usize = 0;
    let mut line_no: usize = 0;
    proof {
        assert(cs@.subrange(0, n as int) =~= cs@);
        assert(all.subrange(0, all.len() as int) =~= all);
    }
    while start < n
        invariant
            n == cs@.len(),
            cs@ == text@,
            retention_days > 0,
            all == text_lines(cs@),
            start <= n,
            line_no <= start,
            ids.wf(),
            line_no <= all.len(),
            all.subrange(line_no as int, all.len() as int) == text_lines(cs@.subrange(start as int, n as int)),
            parse_lines(all, 0, Set::empty(), 0) == parse_lines(all, line_no as int, ids@, ids.ids@.len()),
            ids.ids@.len() <= MAX_AUDITED,
        decreases n - start,
    {
        let end = line_end(&cs, start);
        let ghost tail = all.subrange(line_no as int, all.len() as int);
        proof {
            assert(tail.len() >= 1);
            assert(tail[0] == cs@.subrange(start as int, end as int));
            assert(all[line_no as int] == tail[0]);
            assert(all.subrange(line_no + 1, all.len() as int) =~= tail.drop_first());
        }
        let ghost before = ids@;
        let ghost count = ids.ids@.len();
        match apply_line(&cs, start, end, &mut ids, Ghost(all), line_no) {
            Err(e) => {
                proof {
                    assert(parse_lines(all, line_no as int, before, count) == Err::<Set<i64>, ConfigError>(e));
                    assert(config_from_text(text@, retention_days) == parse_lines(all, 0, Set::empty(), 0));
                }
                return Err(e);
            },
            Ok(()) => {},
        }
        proof {
            if end < n {
                assert(tail.drop_first() =~= text_lines(cs@.subrange(end + 1, n as int)));
            } else {
                reveal(text_lines);
                assert(tail.drop_first().len() == 0);
                assert(cs@.subrange(n as int, n as int) =~= Seq::<char>::empty());
                assert(text_lines(Seq::<char>::empty()).len() == 0);
                assert(tail.drop_first() =~= text_lines(cs@.subrange(n as int, n as int)));
            }
        }
        line_no = line_no + 1;
        start = if end < n { end + 1 } else { n };
    }
    proof {
        assert(cs@.subrange(n as int, n as int) =~= Seq::<char>::empty());
        reveal(text_lines);
        assert(all.subrange(line_no as int, all.len() as int).len() == 0);
        reveal(parse_lines);
    }
    Ok(Config { character_ids: ids, retention_days })
}

} // verus!
