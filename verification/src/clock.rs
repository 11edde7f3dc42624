//! Reading the local clock, and the identifiers and timestamps made from it.
use vstd::prelude::*;
use crate::text::{push_str, push_zero_padded, zero_padded};

verus! {

#[verifier::external_type_specification]
#[verifier::external_body]
pub struct ExNaiveDateTime(chrono::NaiveDateTime);

/// `chrono::Local::now`: the current date and time on the local clock, taken as the
/// wall-clock reading (`naive_local`). Nothing is promised of it.
#[verifier::external_body]
fn local_now() -> chrono::NaiveDateTime {
    chrono::Local::now().naive_local()
}

/// The strftime specifiers the library writes times with: year, month, day, hour,
/// minute and second.
pub open spec fn time_field(c: char) -> bool {
    c == 'Y' || c == 'm' || c == 'd' || c == 'H' || c == 'M' || c == 'S'
}

/// A strftime pattern made of literal characters and the specifiers `%Y %m %d %H %M %S`.
pub open spec fn simple_pattern(p: Seq<char>) -> bool
    decreases p.len(),
{
    if p.len() == 0 {
        true
    } else if p[0] == '%' {
        p.len() >= 2 && time_field(p[1]) && simple_pattern(p.skip(2))
    } else {
        simple_pattern(p.skip(1))
    }
}

/// A date and time as a clock can read it: month 1..=12, day 1..=31, hour 0..=23,
/// minute 0..=59, second 0..=60 (a leap second reads 60), and a year in the range that
/// chrono supports.
pub open spec fn valid_reading(y: int, mo: int, d: int, h: int, mi: int, s: int) -> bool {
    &&& -262144 <= y <= 262143
    &&& 1 <= mo <= 12
    &&& 1 <= d <= 31
    &&& 0 <= h <= 23
    &&& 0 <= mi <= 59
    &&& 0 <= s <= 60
}

/// `%Y`: the year in four digits, zero-padded; outside 0..=9999 with its sign before.
pub open spec fn year_text(y: int) -> Seq<char> {
    if 0 <= y <= 9999 {
        zero_padded(y as nat, 4)
    } else if y < 0 {
        seq!['-'] + zero_padded((-y) as nat, 4)
    } else {
        seq!['+'] + zero_padded(y as nat, 4)
    }
}

/// What the specifier `%c` writes for the reading: the year as `year_text`, every other
/// field in two digits, zero-padded.
pub open spec fn field_text(c: char, y: int, mo: int, d: int, h: int, mi: int, s: int) -> Seq<char> {
    if c == 'Y' {
        year_text(y)
    } else if c == 'm' {
        zero_padded(mo as nat, 2)
    } else if c == 'd' {
        zero_padded(d as nat, 2)
    } else if c == 'H' {
        zero_padded(h as nat, 2)
    } else if c == 'M' {
        zero_padded(mi as nat, 2)
    } else {
        zero_padded(s as nat, 2)
    }
}

/// The reading written in the pattern `p`: each specifier replaced by its field, every
/// other character kept.
pub open spec fn rendered(p: Seq<char>, y: int, mo: int, d: int, h: int, mi: int, s: int) -> Seq<char>
    decreases p.len(),
{
    if p.len() == 0 {
        seq![]
    } else if p[0] == '%' && p.len() >= 2 {
        field_text(p[1], y, mo, d, h, mi, s) + rendered(p.skip(2), y, mo, d, h, mi, s)
    } else {
        seq![p[0]] + rendered(p.skip(1), y, mo, d, h, mi, s)
    }
}

/// `text` is some reading of the clock written in `pattern` (see `rendered`).
pub open spec fn shows_time(text: Seq<char>, pattern: Seq<char>) -> bool {
    exists|y: int, mo: int, d: int, h: int, mi: int, s: int|
        #![trigger rendered(pattern, y, mo, d, h, mi, s)]
        valid_reading(y, mo, d, h, mi, s) && text == rendered(pattern, y, mo, d, h, mi, s)
}

/// `NaiveDateTime::format` with a strftime pattern, written out as a string.
/// Trusted: for a pattern of literals and `%Y %m %d %H %M %S` (other patterns can make
/// chrono report an error, on which `to_string` panics), chrono keeps each literal and
/// writes each field of the time zero-padded: two digits for month, day, hour, minute
/// and second, four for a year in 0..=9999 and the sign before it outside that range.
/// Which reading `t` holds is not stated: it is the time read from the clock.
#[verifier::external_body]
fn format_time(t: &chrono::NaiveDateTime, pattern: &str) -> (r: String)
    requires
        simple_pattern(pattern@),
    ensures
        shows_time(r@, pattern@),
{
    t.format(pattern).to_string()
}

/// `DateTime::timestamp_subsec_millis` of the reading: the milliseconds since the last
/// whole second.
/// Trusted: chrono keeps sub-second nanoseconds below two seconds (a leap second
/// reads as 1000..1999 ms), so the value is below 2000.
#[verifier::external_body]
fn subsec_millis(t: &chrono::NaiveDateTime) -> (ms: u32)
    ensures
        ms < 2000,
{
    t.and_utc().timestamp_subsec_millis()
}

/// The timestamp of the trace rows and log lines: `YYYY-mm-dd-HH-MM-SS`.
pub open spec fn trace_stamp(y: int, mo: int, d: int, h: int, mi: int, s: int) -> Seq<char> {
    year_text(y) + seq!['-'] + zero_padded(mo as nat, 2) + seq!['-'] + zero_padded(d as nat, 2) + seq!['-']
        + zero_padded(h as nat, 2) + seq!['-'] + zero_padded(mi as nat, 2) + seq!['-'] + zero_padded(
        s as nat,
        2,
    )
}

proof fn lemma_pattern_concat(a: Seq<char>, b: Seq<char>, y: int, mo: int, d: int, h: int, mi: int, s: int)
    requires
        simple_pattern(a),
    ensures
        simple_pattern(a + b) == simple_pattern(b),
        rendered(a + b, y, mo, d, h, mi, s) == rendered(a, y, mo, d, h, mi, s) + rendered(b, y, mo, d, h, mi, s),
    decreases a.len(),
{
    if a.len() == 0 {
        assert(a + b =~= b);
        assert(rendered(a, y, mo, d, h, mi, s) + rendered(b, y, mo, d, h, mi, s) =~= rendered(b, y, mo, d, h, mi, s));
    } else if a[0] == '%' {
        assert((a + b)[0] == '%' && (a + b)[1] == a[1]);
        assert((a + b).skip(2) =~= a.skip(2) + b);
        lemma_pattern_concat(a.skip(2), b, y, mo, d, h, mi, s);
        assert(rendered(a + b, y, mo, d, h, mi, s) =~= rendered(a, y, mo, d, h, mi, s) + rendered(b, y, mo, d, h, mi, s));
    } else {
        assert((a + b)[0] == a[0]);
        assert((a + b).skip(1) =~= a.skip(1) + b);
        lemma_pattern_concat(a.skip(1), b, y, mo, d, h, mi, s);
        assert(rendered(a + b, y, mo, d, h, mi, s) =~= rendered(a, y, mo, d, h, mi, s) + rendered(b, y, mo, d, h, mi, s));
    }
}

/// The piece of a pattern for one character: `%c` for a field, `c` itself for a literal.
pub open spec fn piece(c: char, field: bool) -> Seq<char> {
    if field {
        seq!['%', c]
    } else {
        seq![c]
    }
}

/// What `piece(c, field)` writes for the reading.
pub open spec fn piece_text(c: char, field: bool, y: int, mo: int, d: int, h: int, mi: int, s: int) -> Seq<char> {
    if field {
        field_text(c, y, mo, d, h, mi, s)
    } else {
        seq![c]
    }
}

proof fn lemma_extend(a: Seq<char>, c: char, field: bool, y: int, mo: int, d: int, h: int, mi: int, s: int)
    requires
        simple_pattern(a),
        field ==> time_field(c),
        !field ==> c != '%',
    ensures
        simple_pattern(a + piece(c, field)),
        rendered(a + piece(c, field), y, mo, d, h, mi, s) == rendered(a, y, mo, d, h, mi, s) + piece_text(
            c,
            field,
            y,
            mo,
            d,
            h,
            mi,
            s,
        ),
{
    let q = piece(c, field);
    let e: Seq<char> = seq![];
    assert(simple_pattern(e));
    assert(rendered(e, y, mo, d, h, mi, s) =~= e);
    if field {
        assert(q.skip(2) =~= e);
        assert(rendered(q, y, mo, d, h, mi, s) =~= field_text(c, y, mo, d, h, mi, s));
    } else {
        assert(q.skip(1) =~= e);
        assert(rendered(q, y, mo, d, h, mi, s) =~= seq![c]);
    }
    lemma_pattern_concat(a, q, y, mo, d, h, mi, s);
}

/// A pattern written as pieces: `(c, true)` for the specifier `%c`, `(c, false)` for the
/// literal `c`.
pub open spec fn pattern_of(ps: Seq<(char, bool)>) -> Seq<char>
    decreases ps.len(),
{
    if ps.len() == 0 {
        seq![]
    } else {
        pattern_of(ps.drop_last()) + piece(ps.last().0, ps.last().1)
    }
}

/// What the pattern of `ps` writes for the reading, piece by piece.
pub open spec fn pieces_text(ps: Seq<(char, bool)>, y: int, mo: int, d: int, h: int, mi: int, s: int) -> Seq<char>
    decreases ps.len(),
{
    if ps.len() == 0 {
        seq![]
    } else {
        pieces_text(ps.drop_last(), y, mo, d, h, mi, s) + piece_text(ps.last().0, ps.last().1, y, mo, d, h, mi, s)
    }
}

proof fn lemma_pieces(ps: Seq<(char, bool)>, y: int, mo: int, d: int, h: int, mi: int, s: int)
    requires
        forall|i: int| 0 <= i < ps.len() ==> (#[trigger] ps[i]).1 ==> time_field(ps[i].0),
        forall|i: int| 0 <= i < ps.len() ==> !(#[trigger] ps[i]).1 ==> ps[i].0 != '%',
    ensures
        simple_pattern(pattern_of(ps)),
        rendered(pattern_of(ps), y, mo, d, h, mi, s) == pieces_text(ps, y, mo, d, h, mi, s),
    decreases ps.len(),
{
    if ps.len() == 0 {
        assert(rendered(pattern_of(ps), y, mo, d, h, mi, s) =~= pieces_text(ps, y, mo, d, h, mi, s));
    } else {
        let p = ps.drop_last();
        assert forall|i: int| 0 <= i < p.len() implies ((#[trigger] p[i]).1 ==> time_field(p[i].0)) && (!p[i].1
            ==> p[i].0 != '%') by {
            assert(p[i] == ps[i]);
        }
        lemma_pieces(p, y, mo, d, h, mi, s);
        let l = ps.last();
        assert(l == ps[ps.len() - 1]);
        lemma_extend(pattern_of(p), l.0, l.1, y, mo, d, h, mi, s);
    }
}

/// The pieces of the trace timestamp pattern `%Y-%m-%d-%H-%M-%S`.
pub open spec fn trace_pieces() -> Seq<(char, bool)> {
    seq![
        ('Y', true),
        ('-', false),
        ('m', true),
        ('-', false),
        ('d', true),
        ('-', false),
        ('H', true),
        ('-', false),
        ('M', true),
        ('-', false),
        ('S', true),
    ]
}

proof fn lemma_pieces_ok(ps: Seq<(char, bool)>)
    requires
        forall|i: int| 0 <= i < ps.len() ==> (#[trigger] ps[i]).1 ==> time_field(ps[i].0),
        forall|i: int| 0 <= i < ps.len() ==> !(#[trigger] ps[i]).1 ==> ps[i].0 != '%',
    ensures
        simple_pattern(pattern_of(ps)),
{
    lemma_pieces(ps, 0, 0, 0, 0, 0, 0);
}

proof fn lemma_trace_pattern(y: int, mo: int, d: int, h: int, mi: int, s: int)
    ensures
        "%Y-%m-%d-%H-%M-%S"@ == pattern_of(trace_pieces()),
        simple_pattern("%Y-%m-%d-%H-%M-%S"@),
        rendered("%Y-%m-%d-%H-%M-%S"@, y, mo, d, h, mi, s) == trace_stamp(y, mo, d, h, mi, s),
{
    reveal_strlit("%Y-%m-%d-%H-%M-%S");
    let ps = trace_pieces();
    reveal_with_fuel(pattern_of, 12);
    reveal_with_fuel(pieces_text, 12);
    assert("%Y-%m-%d-%H-%M-%S"@ =~= pattern_of(ps));
    lemma_pieces(ps, y, mo, d, h, mi, s);
    assert(pieces_text(ps, y, mo, d, h, mi, s) =~= trace_stamp(y, mo, d, h, mi, s));
}

/// The other patterns the library writes times with are simple patterns.
pub proof fn lemma_other_patterns()
    ensures
        simple_pattern("%Y%m%d-%H%M%S"@),
        simple_pattern("%Y%m%dT%H%M%S"@),
        simple_pattern("%Y-%m-%d %H:%M:%S"@),
{
    reveal_with_fuel(pattern_of, 12);
    let p1 = seq![('Y', true), ('m', true), ('d', true), ('-', false), ('H', true), ('M', true), ('S', true)];
    let p2 = seq![('Y', true), ('m', true), ('d', true), ('T', false), ('H', true), ('M', true), ('S', true)];
    let p3 = seq![
        ('Y', true),
        ('-', false),
        ('m', true),
        ('-', false),
        ('d', true),
        (' ', false),
        ('H', true),
        (':', false),
        ('M', true),
        (':', false),
        ('S', true),
    ];
    reveal_strlit("%Y%m%d-%H%M%S");
    reveal_strlit("%Y%m%dT%H%M%S");
    reveal_strlit("%Y-%m-%d %H:%M:%S");
    assert("%Y%m%d-%H%M%S"@ =~= pattern_of(p1));
    assert("%Y%m%dT%H%M%S"@ =~= pattern_of(p2));
    assert("%Y-%m-%d %H:%M:%S"@ =~= pattern_of(p3));
    lemma_pieces_ok(p1);
    lemma_pieces_ok(p2);
    lemma_pieces_ok(p3);
}

/// `text` is some reading of the clock as a trace timestamp (see `trace_stamp`).
pub open spec fn is_trace_stamp(text: Seq<char>) -> bool {
    exists|y: int, mo: int, d: int, h: int, mi: int, s: int|
        #![trigger trace_stamp(y, mo, d, h, mi, s)]
        valid_reading(y, mo, d, h, mi, s) && text == trace_stamp(y, mo, d, h, mi, s)
}

/// The current local time as a trace timestamp (see `trace_stamp`).
pub fn trace_timestamp() -> (r: String)
    ensures
        is_trace_stamp(r@),
{
    proof {
        lemma_trace_pattern(0, 0, 0, 0, 0, 0);
    }
    let now = local_now();
    let r = format_time(&now, "%Y-%m-%d-%H-%M-%S");
    proof {
        let (y, mo, d, h, mi, s) = choose|y: int, mo: int, d: int, h: int, mi: int, s: int|
            #![trigger rendered("%Y-%m-%d-%H-%M-%S"@, y, mo, d, h, mi, s)]
            valid_reading(y, mo, d, h, mi, s) && r@ == rendered("%Y-%m-%d-%H-%M-%S"@, y, mo, d, h, mi, s);
        lemma_trace_pattern(y, mo, d, h, mi, s);
        assert(r@ == trace_stamp(y, mo, d, h, mi, s));
    }
    r
}

/// The current local time written in `pattern` (see `rendered`).
pub fn local_timestamp(pattern: &str) -> (r: String)
    requires
        simple_pattern(pattern@),
    ensures
        shows_time(r@, pattern@),
{
    let now = local_now();
    format_time(&now, pattern)
}

/// The id of one execution of a node: `invoke-` + the date and time + `-` + the
/// milliseconds, zero-padded to three digits.
pub open spec fn invoke_id(stamp: Seq<char>, millis: nat) -> Seq<char> {
    "invoke-"@ + stamp + "-"@ + zero_padded(millis, 3)
}

/// The execution id for a time written as `stamp` (`%Y%m%d-%H%M%S`) and `millis`.
pub fn invoke_id_from(stamp: &str, millis: u32) -> (r: String)
    ensures
        r@ == invoke_id(stamp@, millis as nat),
{
    let mut r = String::from_str("invoke-");
    push_str(&mut r, stamp);
    push_str(&mut r, "-");
    push_zero_padded(&mut r, millis as usize, 3);
    r
}

/// The pattern of the date and time in an execution id: `YYYYmmdd-HHMMSS`.
pub open spec fn invoke_stamp_pattern() -> Seq<char> {
    "%Y%m%d-%H%M%S"@
}

/// The pattern of the date and time in an instance id: `YYYYmmddTHHMMSS`.
pub open spec fn instance_stamp_pattern() -> Seq<char> {
    "%Y%m%dT%H%M%S"@
}

/// A fresh execution id, made from the current local time: its date and time in
/// `invoke_stamp_pattern` and its milliseconds.
pub fn gen_invoke_id() -> (r: String)
    ensures
        exists|stamp: Seq<char>, ms: nat|
            #![trigger invoke_id(stamp, ms)]
            ms < 2000 && shows_time(stamp, invoke_stamp_pattern()) && r@ == invoke_id(stamp, ms),
{
    let now = local_now();
    proof {
        lemma_other_patterns();
    }
    let stamp = format_time(&now, "%Y%m%d-%H%M%S");
    let ms = subsec_millis(&now);
    let r = invoke_id_from(stamp.as_str(), ms);
    proof {
        assert(ms < 2000 && shows_time(stamp@, invoke_stamp_pattern()) && r@ == invoke_id(stamp@, ms as nat));
    }
    r
}


/// The lower-case hexadecimal digit for `d < 16`.
pub open spec fn hex_digit(d: int) -> char {
    if d < 10 {
        (48 + d) as char
    } else {
        (87 + d) as char
    }
}

/// `n < 65536` in four lower-case hexadecimal digits (the `{:04x}` format).
pub open spec fn hex4(n: nat) -> Seq<char> {
    seq![
        hex_digit(((n / 4096) % 16) as int),
        hex_digit(((n / 256) % 16) as int),
        hex_digit(((n / 16) % 16) as int),
        hex_digit((n % 16) as int),
    ]
}

fn hex_char(d: u32) -> (c: char)
    requires
        d < 16,
    ensures
        c == hex_digit(d as int),
{
    if d < 10 {
        let b: u8 = 48u8 + (d as u8);
        b as char
    } else {
        let b: u8 = 87u8 + (d as u8);
        b as char
    }
}

/// The id of a new instance: the date and time `stamp`, `-`, and the milliseconds
/// (below 10000) in four hexadecimal digits.
pub open spec fn instance_id(stamp: Seq<char>, millis: nat) -> Seq<char> {
    stamp + "-"@ + hex4(millis % 10000)
}

/// The instance id for a time written as `stamp` (`%Y%m%dT%H%M%S`) and `millis`.
pub fn instance_id_from(stamp: &str, millis: u32) -> (r: String)
    ensures
        r@ == instance_id(stamp@, millis as nat),
{
    let n: u32 = millis % 10000;
    let mut r = String::from_str(stamp);
    push_str(&mut r, "-");
    crate::text::push_char(&mut r, hex_char((n / 4096) % 16));
    crate::text::push_char(&mut r, hex_char((n / 256) % 16));
    crate::text::push_char(&mut r, hex_char((n / 16) % 16));
    crate::text::push_char(&mut r, hex_char(n % 16));
    proof {
        reveal_strlit("-");
        assert(r@ =~= instance_id(stamp@, millis as nat));
    }
    r
}

/// A fresh instance id, made from the current local time: its date and time in
/// `instance_stamp_pattern` and its milliseconds.
pub fn gen_instance_id() -> (r: String)
    ensures
        exists|stamp: Seq<char>, ms: nat|
            #![trigger instance_id(stamp, ms)]
            ms < 2000 && shows_time(stamp, instance_stamp_pattern()) && r@ == instance_id(stamp, ms),
{
    let now = local_now();
    proof {
        lemma_other_patterns();
    }
    let stamp = format_time(&now, "%Y%m%dT%H%M%S");
    let ms = subsec_millis(&now);
    let r = instance_id_from(stamp.as_str(), ms);
    proof {
        assert(ms < 2000 && shows_time(stamp@, instance_stamp_pattern()) && r@ == instance_id(stamp@, ms as nat));
    }
    r
}

} // verus!
