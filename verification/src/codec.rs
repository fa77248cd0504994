//! The persisted text form of a task store: a single line of JSON holding an
//! array of records with fields `id`, `description`, `completed` and
//! `priority`. The writer emits one canonical form; the reader accepts that
//! form and rejects anything else, which is what the loader's corruption
//! fallback rests on.

use crate::models::{views, Priority, Task, TaskV};
use vstd::prelude::*;

verus! {

/// Relies on str::chars: yields exactly the characters of the string, in
/// order; collecting them changes only the container.
#[verifier::external_body]
fn str_to_chars(s: &str) -> (r: Vec<char>)
    ensures
        r@ == s@,
{
    s.chars().collect()
}

/// Relies on String's FromIterator: a string collected from characters holds
/// exactly those characters, in order.
#[verifier::external_body]
fn chars_to_string(v: &Vec<char>) -> (r: String)
    ensures
        r@ == v@,
{
    v.iter().collect()
}

/// Hexadecimal digit for a value below 16, in lower case.
pub open spec fn hex_char(v: int) -> char {
    if v == 0 {
        '0'
    } else if v == 1 {
        '1'
    } else if v == 2 {
        '2'
    } else if v == 3 {
        '3'
    } else if v == 4 {
        '4'
    } else if v == 5 {
        '5'
    } else if v == 6 {
        '6'
    } else if v == 7 {
        '7'
    } else if v == 8 {
        '8'
    } else if v == 9 {
        '9'
    } else if v == 10 {
        'a'
    } else if v == 11 {
        'b'
    } else if v == 12 {
        'c'
    } else if v == 13 {
        'd'
    } else if v == 14 {
        'e'
    } else {
        'f'
    }
}

/// How one character of a description is written: quote and backslash get a
/// backslash escape, control characters a `\u00..` escape, everything else
/// stands for itself.
pub open spec fn esc_char(c: char) -> Seq<char> {
    if c == '"' {
        seq!['\\', '"']
    } else if c == '\\' {
        seq!['\\', '\\']
    } else if (c as u32) < 32 {
        seq!['\\', 'u', '0', '0', hex_char((c as u32) as int / 16), hex_char((c as u32) as int % 16)]
    } else {
        seq![c]
    }
}

/// How a whole description is written.
pub open spec fn esc(d: Seq<char>) -> Seq<char>
    decreases d.len(),
{
    if d.len() == 0 {
        seq![]
    } else {
        esc_char(d[0]) + esc(d.drop_first())
    }
}

/// Decimal digit for a value below 10.
pub open spec fn dec_digit(v: int) -> char {
    if v == 0 {
        '0'
    } else if v == 1 {
        '1'
    } else if v == 2 {
        '2'
    } else if v == 3 {
        '3'
    } else if v == 4 {
        '4'
    } else if v == 5 {
        '5'
    } else if v == 6 {
        '6'
    } else if v == 7 {
        '7'
    } else if v == 8 {
        '8'
    } else {
        '9'
    }
}

/// Decimal writing of a non-negative number, without leading zeros.
pub open spec fn dec(n: int) -> Seq<char>
    decreases n,
{
    if n < 10 {
        seq![dec_digit(n)]
    } else {
        dec(n / 10).push(dec_digit(n % 10))
    }
}

pub open spec fn lit_task_open() -> Seq<char> {
    seq!['{', '"', 'i', 'd', '"', ':']
}

pub open spec fn lit_desc() -> Seq<char> {
    seq![',', '"', 'd', 'e', 's', 'c', 'r', 'i', 'p', 't', 'i', 'o', 'n', '"', ':', '"']
}

pub open spec fn lit_completed() -> Seq<char> {
    seq![',', '"', 'c', 'o', 'm', 'p', 'l', 'e', 't', 'e', 'd', '"', ':']
}

pub open spec fn lit_priority() -> Seq<char> {
    seq![',', '"', 'p', 'r', 'i', 'o', 'r', 'i', 't', 'y', '"', ':', '"']
}

pub open spec fn lit_true() -> Seq<char> {
    seq!['t', 'r', 'u', 'e']
}

pub open spec fn lit_false() -> Seq<char> {
    seq!['f', 'a', 'l', 's', 'e']
}

pub open spec fn lit_high() -> Seq<char> {
    seq!['H', 'i', 'g', 'h', '"']
}

pub open spec fn lit_medium() -> Seq<char> {
    seq!['M', 'e', 'd', 'i', 'u', 'm', '"']
}

pub open spec fn lit_low() -> Seq<char> {
    seq!['L', 'o', 'w', '"']
}

pub open spec fn lit_bool(b: bool) -> Seq<char> {
    if b {
        lit_true()
    } else {
        lit_false()
    }
}

pub open spec fn lit_prio(p: Priority) -> Seq<char> {
    match p {
        Priority::High => lit_high(),
        Priority::Medium => lit_medium(),
        Priority::Low => lit_low(),
    }
}

/// The written form of a description: its escaped characters and the
/// closing quote.
pub open spec fn ser_str(d: Seq<char>) -> Seq<char> {
    esc(d) + seq!['"']
}

/// The written form of one task record.
pub open spec fn ser_task(t: TaskV) -> Seq<char> {
    lit_task_open() + dec(t.id as int) + lit_desc() + ser_str(t.description) + lit_completed()
        + lit_bool(t.completed) + lit_priority() + lit_prio(t.priority) + seq!['}']
}

/// The written form of the records, separated by commas.
pub open spec fn ser_list(ts: Seq<TaskV>) -> Seq<char>
    decreases ts.len(),
{
    if ts.len() == 0 {
        seq![]
    } else if ts.len() == 1 {
        ser_task(ts[0])
    } else {
        ser_task(ts[0]) + seq![','] + ser_list(ts.drop_first())
    }
}

/// The written form of a whole store.
pub open spec fn ser_tasks(ts: Seq<TaskV>) -> Seq<char> {
    seq!['['] + ser_list(ts) + seq![']']
}

fn lit_task_open_chars() -> (v: Vec<char>)
    ensures
        v@ == lit_task_open(),
{
    let mut v: Vec<char> = Vec::new();
    v.push('{');
    v.push('"');
    v.push('i');
    v.push('d');
    v.push('"');
    v.push(':');
    proof {
        assert(v@ =~= lit_task_open());
    }
    v
}

fn lit_desc_chars() -> (v: Vec<char>)
    ensures
        v@ == lit_desc(),
{
    let mut v: Vec<char> = Vec::new();
    v.push(',');
    v.push('"');
    v.push('d');
    v.push('e');
    v.push('s');
    v.push('c');
    v.push('r');
    v.push('i');
    v.push('p');
    v.push('t');
    v.push('i');
    v.push('o');
    v.push('n');
    v.push('"');
    v.push(':');
    v.push('"');
    proof {
        assert(v@ =~= lit_desc());
    }
    v
}

fn lit_completed_chars() -> (v: Vec<char>)
    ensures
        v@ == lit_completed(),
{
    let mut v: Vec<char> = Vec::new();
    v.push(',');
    v.push('"');
    v.push('c');
    v.push('o');
    v.push('m');
    v.push('p');
    v.push('l');
    v.push('e');
    v.push('t');
    v.push('e');
    v.push('d');
    v.push('"');
    v.push(':');
    proof {
        assert(v@ =~= lit_completed());
    }
    v
}

fn lit_priority_chars() -> (v: Vec<char>)
    ensures
        v@ == lit_priority(),
{
    let mut v: Vec<char> = Vec::new();
    v.push(',');
    v.push('"');
    v.push('p');
    v.push('r');
    v.push('i');
    v.push('o');
    v.push('r');
    v.push('i');
    v.push('t');
    v.push('y');
    v.push('"');
    v.push(':');
    v.push('"');
    proof {
        assert(v@ =~= lit_priority());
    }
    v
}

fn lit_true_chars() -> (v: Vec<char>)
    ensures
        v@ == lit_true(),
{
    let mut v: Vec<char> = Vec::new();
    v.push('t');
    v.push('r');
    v.push('u');
    v.push('e');
    proof {
        assert(v@ =~= lit_true());
    }
    v
}

fn lit_false_chars() -> (v: Vec<char>)
    ensures
        v@ == lit_false(),
{
    let mut v: Vec<char> = Vec::new();
    v.push('f');
    v.push('a');
    v.push('l');
    v.push('s');
    v.push('e');
    proof {
        assert(v@ =~= lit_false());
    }
    v
}

fn lit_high_chars() -> (v: Vec<char>)
    ensures
        v@ == lit_high(),
{
    let mut v: Vec<char> = Vec::new();
    v.push('H');
    v.push('i');
    v.push('g');
    v.push('h');
    v.push('"');
    proof {
        assert(v@ =~= lit_high());
    }
    v
}

fn lit_medium_chars() -> (v: Vec<char>)
    ensures
        v@ == lit_medium(),
{
    let mut v: Vec<char> = Vec::new();
    v.push('M');
    v.push('e');
    v.push('d');
    v.push('i');
    v.push('u');
    v.push('m');
    v.push('"');
    proof {
        assert(v@ =~= lit_medium());
    }
    v
}

fn lit_low_chars() -> (v: Vec<char>)
    ensures
        v@ == lit_low(),
{
    let mut v: Vec<char> = Vec::new();
    v.push('L');
    v.push('o');
    v.push('w');
    v.push('"');
    proof {
        assert(v@ =~= lit_low());
    }
    v
}

fn dec_digit_exec(v: u32) -> (c: char)
    requires
        v < 10,
    ensures
        c == dec_digit(v as int),
{
    if v == 0 {
        '0'
    } else if v == 1 {
        '1'
    } else if v == 2 {
        '2'
    } else if v == 3 {
        '3'
    } else if v == 4 {
        '4'
    } else if v == 5 {
        '5'
    } else if v == 6 {
        '6'
    } else if v == 7 {
        '7'
    } else if v == 8 {
        '8'
    } else {
        '9'
    }
}

fn hex_char_exec(v: u32) -> (c: char)
    requires
        v < 16,
    ensures
        c == hex_char(v as int),
{
    if v < 10 {
        dec_digit_exec(v)
    } else if v == 10 {
        'a'
    } else if v == 11 {
        'b'
    } else if v == 12 {
        'c'
    } else if v == 13 {
        'd'
    } else if v == 14 {
        'e'
    } else {
        'f'
    }
}

/// Appends the decimal writing of `n`.
fn ser_u32(out: &mut Vec<char>, n: u32)
    ensures
        final(out)@ == old(out)@ + dec(n as int),
    decreases n,
{
    let ghost prev = out@;
    if n >= 10 {
        ser_u32(out, n / 10);
    }
    out.push(dec_digit_exec(n % 10));
    proof {
        assert(out@ =~= prev + dec(n as int));
    }
}

/// Appending one more character extends the escaped writing by that
/// character's escape.
proof fn lemma_esc_push(d: Seq<char>, c: char)
    ensures
        esc(d.push(c)) == esc(d) + esc_char(c),
    decreases d.len(),
{
    if d.len() == 0 {
        reveal_with_fuel(esc, 3);
        assert(d.push(c)[0] == c);
        assert(d.push(c).drop_first() =~= Seq::<char>::empty());
        assert(esc(d.push(c)) =~= esc(d) + esc_char(c));
    } else {
        assert(d.push(c)[0] == d[0]);
        assert(d.push(c).drop_first() =~= d.drop_first().push(c));
        lemma_esc_push(d.drop_first(), c);
        assert(esc(d.push(c)) == esc_char(d[0]) + (esc(d.drop_first()) + esc_char(c)));
        assert(esc_char(d[0]) + (esc(d.drop_first()) + esc_char(c)) =~= (esc_char(d[0]) + esc(
            d.drop_first(),
        )) + esc_char(c));
    }
}

/// Appends the escaped writing of the characters of `d`.
fn ser_string(out: &mut Vec<char>, d: &Vec<char>)
    ensures
        final(out)@ == old(out)@ + esc(d@),
{
    let ghost base = out@;
    let n = d.len();
    let mut i: usize = 0;
    proof {
        assert(esc(d@.take(0)) =~= Seq::<char>::empty());
        assert(base + esc(d@.take(0)) =~= base);
    }
    while i < n
        invariant
            n == d@.len(),
            i <= n,
            out@ == base + esc(d@.take(i as int)),
        decreases n - i,
    {
        let ghost prev = out@;
        let c = d[i];
        if c == '"' {
            out.push('\\');
            out.push('"');
        } else if c == '\\' {
            out.push('\\');
            out.push('\\');
        } else if (c as u32) < 32 {
            let v = c as u32;
            out.push('\\');
            out.push('u');
            out.push('0');
            out.push('0');
            out.push(hex_char_exec(v / 16));
            out.push(hex_char_exec(v % 16));
        } else {
            out.push(c);
        }
        proof {
            assert(out@ =~= prev + esc_char(d@[i as int]));
            assert(d@.take(i as int + 1) =~= d@.take(i as int).push(d@[i as int]));
            lemma_esc_push(d@.take(i as int), d@[i as int]);
            assert(out@ =~= base + esc(d@.take(i as int + 1)));
        }
        i += 1;
    }
    proof {
        assert(d@.take(n as int) =~= d@);
    }
}

/// Appends the written form of one task record.
fn ser_task_exec(out: &mut Vec<char>, t: &Task)
    ensures
        final(out)@ == old(out)@ + ser_task(t@),
{
    let ghost base = out@;
    let mut l1 = lit_task_open_chars();
    out.append(&mut l1);
    ser_u32(out, t.id);
    let mut l2 = lit_desc_chars();
    out.append(&mut l2);
    let dchars = str_to_chars(t.description.as_str());
    ser_string(out, &dchars);
    out.push('"');
    proof {
        assert(out@ =~= base + lit_task_open() + dec(t.id as int) + lit_desc() + ser_str(
            t@.description,
        ));
    }
    let mut l3 = lit_completed_chars();
    out.append(&mut l3);
    if t.completed {
        let mut lb = lit_true_chars();
        out.append(&mut lb);
    } else {
        let mut lb = lit_false_chars();
        out.append(&mut lb);
    }
    let mut l4 = lit_priority_chars();
    out.append(&mut l4);
    match t.priority {
        Priority::High => {
            let mut lp = lit_high_chars();
            out.append(&mut lp);
        },
        Priority::Medium => {
            let mut lp = lit_medium_chars();
            out.append(&mut lp);
        },
        Priority::Low => {
            let mut lp = lit_low_chars();
            out.append(&mut lp);
        },
    }
    out.push('}');
    proof {
        assert(out@ =~= base + ser_task(t@));
    }
}

/// With one more record the written list grows by that record, after a
/// separating comma unless it is the first.
proof fn lemma_ser_list_snoc(ts: Seq<TaskV>, i: int)
    requires
        0 <= i < ts.len(),
    ensures
        ser_list(ts.take(i + 1)) == if i == 0 {
            ser_task(ts[0])
        } else {
            ser_list(ts.take(i)) + seq![','] + ser_task(ts[i])
        },
    decreases i,
{
    if i == 0 {
        assert(ts.take(1).len() == 1);
        assert(ts.take(1)[0] == ts[0]);
    } else {
        let rest = ts.drop_first();
        assert(ts.take(i + 1).len() == i + 1);
        assert(ts.take(i + 1)[0] == ts[0]);
        assert(ts.take(i + 1).drop_first() =~= rest.take(i));
        lemma_ser_list_snoc(rest, i - 1);
        if i == 1 {
            assert(ser_list(ts.take(2)) == ser_task(ts[0]) + seq![','] + ser_list(rest.take(1)));
            assert(ser_list(rest.take(1)) == ser_task(rest[0]));
            assert(ts.take(1).len() == 1);
            assert(ser_list(ts.take(1)) == ser_task(ts[0]));
            assert(rest[0] == ts[1]);
        } else {
            assert(ser_list(ts.take(i + 1)) == ser_task(ts[0]) + seq![','] + ser_list(
                rest.take(i),
            ));
            assert(ser_list(rest.take(i)) == ser_list(rest.take(i - 1)) + seq![','] + ser_task(
                rest[i - 1],
            ));
            assert(ts.take(i).drop_first() =~= rest.take(i - 1));
            assert(ts.take(i).len() == i);
            assert(ser_list(ts.take(i)) == ser_task(ts[0]) + seq![','] + ser_list(
                rest.take(i - 1),
            ));
            assert(rest[i - 1] == ts[i]);
            assert(ser_task(ts[0]) + seq![','] + (ser_list(rest.take(i - 1)) + seq![','] + ser_task(
                ts[i],
            )) =~= (ser_task(ts[0]) + seq![','] + ser_list(rest.take(i - 1))) + seq![','] + ser_task(
                ts[i],
            ));
        }
    }
}

/// Writes the store in its persisted text form.
pub fn serialize_tasks(todos: &Vec<Task>) -> (r: String)
    ensures
        r@ == ser_tasks(views(todos@)),
{
    let ghost ts = views(todos@);
    let mut out: Vec<char> = Vec::new();
    out.push('[');
    proof {
        assert(ts.take(0) =~= Seq::<TaskV>::empty());
        assert(out@ =~= seq!['['] + ser_list(ts.take(0)));
    }
    let n = todos.len();
    let mut i: usize = 0;
    while i < n
        invariant
            ts == views(todos@),
            n == ts.len(),
            i <= n,
            out@ == seq!['['] + ser_list(ts.take(i as int)),
        decreases n - i,
    {
        if i > 0 {
            out.push(',');
        }
        ser_task_exec(&mut out, &todos[i]);
        proof {
            lemma_ser_list_snoc(ts, i as int);
            assert(out@ =~= seq!['['] + ser_list(ts.take(i as int + 1)));
        }
        i += 1;
    }
    out.push(']');
    proof {
        assert(ts.take(n as int) =~= ts);
        assert(out@ =~= ser_tasks(ts));
    }
    chars_to_string(&out)
}


/// Whether `c` is a decimal digit.
pub open spec fn is_digit(c: char) -> bool {
    48 <= c as u32 <= 57
}

/// Numeric value of a decimal digit.
pub open spec fn digit_val(c: char) -> int {
    c as u32 - 48
}

/// Whether `c` is a lower-case hexadecimal digit.
pub open spec fn is_hex(c: char) -> bool {
    is_digit(c) || (97 <= c as u32 <= 102)
}

/// Numeric value of a lower-case hexadecimal digit.
pub open spec fn hex_val(c: char) -> int {
    if is_digit(c) {
        digit_val(c)
    } else {
        c as u32 - 87
    }
}

/// The control character with code `v`.
pub open spec fn ctrl_char(v: int) -> char {
    if v == 0 { '\u{00}' }
    else if v == 1 { '\u{01}' }
    else if v == 2 { '\u{02}' }
    else if v == 3 { '\u{03}' }
    else if v == 4 { '\u{04}' }
    else if v == 5 { '\u{05}' }
    else if v == 6 { '\u{06}' }
    else if v == 7 { '\u{07}' }
    else if v == 8 { '\u{08}' }
    else if v == 9 { '\u{09}' }
    else if v == 10 { '\u{0a}' }
    else if v == 11 { '\u{0b}' }
    else if v == 12 { '\u{0c}' }
    else if v == 13 { '\u{0d}' }
    else if v == 14 { '\u{0e}' }
    else if v == 15 { '\u{0f}' }
    else if v == 16 { '\u{10}' }
    else if v == 17 { '\u{11}' }
    else if v == 18 { '\u{12}' }
    else if v == 19 { '\u{13}' }
    else if v == 20 { '\u{14}' }
    else if v == 21 { '\u{15}' }
    else if v == 22 { '\u{16}' }
    else if v == 23 { '\u{17}' }
    else if v == 24 { '\u{18}' }
    else if v == 25 { '\u{19}' }
    else if v == 26 { '\u{1a}' }
    else if v == 27 { '\u{1b}' }
    else if v == 28 { '\u{1c}' }
    else if v == 29 { '\u{1d}' }
    else if v == 30 { '\u{1e}' }
    else { '\u{1f}' }
}

/// End of the run of digits starting at `i`.
pub open spec fn digit_run_end(s: Seq<char>, i: int) -> int
    decreases s.len() - i,
{
    if i < 0 || i >= s.len() {
        i
    } else if !is_digit(s[i]) {
        i
    } else {
        digit_run_end(s, i + 1)
    }
}

/// Value of a sequence of digits, most significant first.
pub open spec fn digits_val(ds: Seq<char>) -> int
    decreases ds.len(),
{
    if ds.len() == 0 {
        0
    } else {
        digits_val(ds.drop_last()) * 10 + digit_val(ds.last())
    }
}

/// Reading a number at `i`: the digit run there, rejected when empty or
/// when its value does not fit a `u32`.
pub open spec fn pt_u32(s: Seq<char>, i: int) -> Option<(u32, int)> {
    let j = digit_run_end(s, i);
    if j == i {
        None
    } else {
        let v = digits_val(s.subrange(i, j));
        if v < 0x1_0000_0000 {
            Some((v as u32, j))
        } else {
            None
        }
    }
}

/// Reading the exact characters of `lit` at `i`.
pub open spec fn pt_expect(s: Seq<char>, i: int, lit: Seq<char>) -> Option<int> {
    if 0 <= i && i + lit.len() <= s.len() && s.subrange(i, i + lit.len()) == lit {
        Some(i + lit.len())
    } else {
        None
    }
}

/// Reading one escape at `i` (the position after the backslash).
pub open spec fn pt_escape(s: Seq<char>, i: int) -> Option<(char, int)> {
    if 0 <= i < s.len() && s[i] == '"' {
        Some(('"', i + 1))
    } else if 0 <= i < s.len() && s[i] == '\\' {
        Some(('\\', i + 1))
    } else if 0 <= i < s.len() && s[i] == 'u' {
        if i + 5 <= s.len() && s[i + 1] == '0' && s[i + 2] == '0' && is_hex(s[i + 3]) && is_hex(
            s[i + 4],
        ) {
            let v = 16 * hex_val(s[i + 3]) + hex_val(s[i + 4]);
            if v < 32 {
                Some((ctrl_char(v), i + 5))
            } else {
                None
            }
        } else {
            None
        }
    } else {
        None
    }
}

/// Reading a description at `i` (the position after the opening quote), up
/// to and including the closing quote.
pub open spec fn pt_string(s: Seq<char>, i: int) -> Option<(Seq<char>, int)>
    decreases s.len() - i,
{
    if i < 0 || i >= s.len() {
        None
    } else if s[i] == '"' {
        Some((seq![], i + 1))
    } else if s[i] == '\\' {
        match pt_escape(s, i + 1) {
            Some((c, j)) => if i + 1 < j && j <= s.len() {
                match pt_string(s, j) {
                    Some((d, k)) => Some((seq![c] + d, k)),
                    None => None,
                }
            } else {
                None
            },
            None => None,
        }
    } else {
        match pt_string(s, i + 1) {
            Some((d, k)) => Some((seq![s[i]] + d, k)),
            None => None,
        }
    }
}

/// Reading `true` or `false` at `i`.
pub open spec fn pt_bool(s: Seq<char>, i: int) -> Option<(bool, int)> {
    match pt_expect(s, i, lit_true()) {
        Some(j) => Some((true, j)),
        None => match pt_expect(s, i, lit_false()) {
            Some(j) => Some((false, j)),
            None => None,
        },
    }
}

/// Reading a priority name and its closing quote at `i`.
pub open spec fn pt_prio(s: Seq<char>, i: int) -> Option<(Priority, int)> {
    match pt_expect(s, i, lit_high()) {
        Some(j) => Some((Priority::High, j)),
        None => match pt_expect(s, i, lit_medium()) {
            Some(j) => Some((Priority::Medium, j)),
            None => match pt_expect(s, i, lit_low()) {
                Some(j) => Some((Priority::Low, j)),
                None => None,
            },
        },
    }
}

/// Reading one task record at `i`.
pub open spec fn pt_task(s: Seq<char>, i: int) -> Option<(TaskV, int)> {
    match pt_expect(s, i, lit_task_open()) {
        None => None,
        Some(i1) => match pt_u32(s, i1) {
            None => None,
            Some((id, i2)) => match pt_expect(s, i2, lit_desc()) {
                None => None,
                Some(i3) => match pt_string(s, i3) {
                    None => None,
                    Some((d, i4)) => match pt_expect(s, i4, lit_completed()) {
                        None => None,
                        Some(i5) => match pt_bool(s, i5) {
                            None => None,
                            Some((b, i6)) => match pt_expect(s, i6, lit_priority()) {
                                None => None,
                                Some(i7) => match pt_prio(s, i7) {
                                    None => None,
                                    Some((p, i8)) => match pt_expect(s, i8, seq!['}']) {
                                        None => None,
                                        Some(i9) => Some(
                                            (
                                                TaskV {
                                                    id: id,
                                                    description: d,
                                                    completed: b,
                                                    priority: p,
                                                },
                                                i9,
                                            ),
                                        ),
                                    },
                                },
                            },
                        },
                    },
                },
            },
        },
    }
}

/// Reading one or more comma-separated records at `i`.
pub open spec fn pt_list(s: Seq<char>, i: int) -> Option<(Seq<TaskV>, int)>
    decreases s.len() - i,
{
    match pt_task(s, i) {
        None => None,
        Some((t, j)) => if j < s.len() && s[j] == ',' {
            if i < j + 1 && j + 1 <= s.len() {
                match pt_list(s, j + 1) {
                    Some((ts, k)) => Some((seq![t] + ts, k)),
                    None => None,
                }
            } else {
                None
            }
        } else {
            Some((seq![t], j))
        },
    }
}

/// What a stored text means: an empty array is the empty store; otherwise a
/// bracketed record list covering the whole text. Anything else is corrupt.
pub open spec fn parse_tasks_spec(s: Seq<char>) -> Option<Seq<TaskV>> {
    if s.len() == 2 && s[0] == '[' && s[1] == ']' {
        Some(seq![])
    } else if s.len() >= 1 && s[0] == '[' {
        match pt_list(s, 1) {
            Some((ts, j)) => if j + 1 == s.len() && j < s.len() && s[j] == ']' {
                Some(ts)
            } else {
                None
            },
            None => None,
        }
    } else {
        None
    }
}


proof fn lemma_digit_run_end_of(s: Seq<char>, i: int, j: int)
    requires
        0 <= i <= j <= s.len(),
        forall|m: int| i <= m < j ==> is_digit(s[m]),
        j == s.len() || !is_digit(s[j]),
    ensures
        digit_run_end(s, i) == j,
    decreases j - i,
{
    if i < j {
        lemma_digit_run_end_of(s, i + 1, j);
    }
}

proof fn lemma_digits_val_snoc(s: Seq<char>, i: int, j: int)
    requires
        0 <= i <= j < s.len(),
    ensures
        digits_val(s.subrange(i, j + 1)) == digits_val(s.subrange(i, j)) * 10 + digit_val(s[j]),
{
    assert(s.subrange(i, j + 1).drop_last() =~= s.subrange(i, j));
    assert(s.subrange(i, j + 1).last() == s[j]);
}

/// Reads the digit run at `i` as a number, as the stored form writes one.
fn parse_u32(s: &Vec<char>, i: usize) -> (r: Option<(u32, usize)>)
    requires
        i <= s@.len(),
    ensures
        (match r {
            Some((v, j)) => pt_u32(s@, i as int) == Some((v, j as int)) && i < j <= s@.len(),
            None => pt_u32(s@, i as int) == None::<(u32, int)>,
        }),
{
    let n = s.len();
    let mut j = i;
    let mut val: u32 = 0;
    let mut ok = true;
    proof {
        assert(s@.subrange(i as int, i as int) =~= Seq::<char>::empty());
    }
    while j < n
        invariant_except_break
            i <= j <= n,
            n == s@.len(),
            forall|m: int| i <= m < j ==> is_digit(s@[m]),
            ok ==> val == digits_val(s@.subrange(i as int, j as int)),
            !ok ==> digits_val(s@.subrange(i as int, j as int)) >= 0x1_0000_0000,
        ensures
            i <= j <= n,
            n == s@.len(),
            forall|m: int| i <= m < j ==> is_digit(s@[m]),
            j == n || !is_digit(s@[j as int]),
            ok ==> val == digits_val(s@.subrange(i as int, j as int)),
            !ok ==> digits_val(s@.subrange(i as int, j as int)) >= 0x1_0000_0000,
        decreases n - j,
    {
        let c = s[j];
        let u = c as u32;
        if !(48 <= u && u <= 57) {
            break;
        }
        proof {
            lemma_digits_val_snoc(s@, i as int, j as int);
        }
        let d = u - 48;
        if ok {
            if (val as u64) * 10 + (d as u64) <= 0xffff_ffffu64 {
                val = val * 10 + d;
            } else {
                ok = false;
            }
        }
        j += 1;
    }
    proof {
        lemma_digit_run_end_of(s@, i as int, j as int);
    }
    if j == i {
        return None;
    }
    if ok {
        Some((val, j))
    } else {
        None
    }
}

fn ctrl_char_exec(v: u32) -> (c: char)
    requires
        v < 32,
    ensures
        c == ctrl_char(v as int),
{
    if v == 0 { '\u{00}' }
    else if v == 1 { '\u{01}' }
    else if v == 2 { '\u{02}' }
    else if v == 3 { '\u{03}' }
    else if v == 4 { '\u{04}' }
    else if v == 5 { '\u{05}' }
    else if v == 6 { '\u{06}' }
    else if v == 7 { '\u{07}' }
    else if v == 8 { '\u{08}' }
    else if v == 9 { '\u{09}' }
    else if v == 10 { '\u{0a}' }
    else if v == 11 { '\u{0b}' }
    else if v == 12 { '\u{0c}' }
    else if v == 13 { '\u{0d}' }
    else if v == 14 { '\u{0e}' }
    else if v == 15 { '\u{0f}' }
    else if v == 16 { '\u{10}' }
    else if v == 17 { '\u{11}' }
    else if v == 18 { '\u{12}' }
    else if v == 19 { '\u{13}' }
    else if v == 20 { '\u{14}' }
    else if v == 21 { '\u{15}' }
    else if v == 22 { '\u{16}' }
    else if v == 23 { '\u{17}' }
    else if v == 24 { '\u{18}' }
    else if v == 25 { '\u{19}' }
    else if v == 26 { '\u{1a}' }
    else if v == 27 { '\u{1b}' }
    else if v == 28 { '\u{1c}' }
    else if v == 29 { '\u{1d}' }
    else if v == 30 { '\u{1e}' }
    else { '\u{1f}' }
}

fn hex_digit_val(c: char) -> (r: Option<u32>)
    ensures
        (match r {
            Some(v) => is_hex(c) && v == hex_val(c) && v < 16,
            None => !is_hex(c),
        }),
{
    let u = c as u32;
    if 48 <= u && u <= 57 {
        Some(u - 48)
    } else if 97 <= u && u <= 102 {
        Some(u - 87)
    } else {
        None
    }
}

/// Reads one escape at `i`, the position after the backslash.
fn parse_escape(s: &Vec<char>, i: usize) -> (r: Option<(char, usize)>)
    requires
        i <= s@.len(),
    ensures
        (match r {
            Some((c, j)) => pt_escape(s@, i as int) == Some((c, j as int)) && i < j <= s@.len(),
            None => pt_escape(s@, i as int) == None::<(char, int)>,
        }),
{
    let n = s.len();
    if i >= n {
        return None;
    }
    let c0 = s[i];
    if c0 == '"' {
        return Some(('"', i + 1));
    }
    if c0 == '\\' {
        return Some(('\\', i + 1));
    }
    if c0 == 'u' {
        if n - i >= 5 {
            if s[i + 1] == '0' && s[i + 2] == '0' {
                match (hex_digit_val(s[i + 3]), hex_digit_val(s[i + 4])) {
                    (Some(v1), Some(v2)) => {
                        let v = 16 * v1 + v2;
                        if v < 32 {
                            return Some((ctrl_char_exec(v), i + 5));
                        }
                        return None;
                    },
                    _ => {
                        return None;
                    },
                }
            }
            return None;
        }
        return None;
    }
    None
}

spec fn pt_string_prepend(pre: Seq<char>, r: Option<(Seq<char>, int)>) -> Option<(Seq<char>, int)> {
    match r {
        Some((d, k)) => Some((pre + d, k)),
        None => None,
    }
}

/// Reads a description at `i`, the position after the opening quote.
fn parse_string(s: &Vec<char>, i: usize) -> (r: Option<(Vec<char>, usize)>)
    requires
        i <= s@.len(),
    ensures
        (match r {
            Some((d, j)) => pt_string(s@, i as int) == Some((d@, j as int)) && i < j <= s@.len(),
            None => pt_string(s@, i as int) == None::<(Seq<char>, int)>,
        }),
{
    let n = s.len();
    let mut acc: Vec<char> = Vec::new();
    let mut cur = i;
    proof {
        if let Some((d, k)) = pt_string(s@, i as int) {
            assert(Seq::<char>::empty() + d =~= d);
        }
    }
    while cur < n
        invariant
            i <= cur <= n,
            n == s@.len(),
            pt_string(s@, i as int) == pt_string_prepend(acc@, pt_string(s@, cur as int)),
        decreases n - cur,
    {
        let c = s[cur];
        if c == '"' {
            proof {
                assert(pt_string(s@, cur as int) == Some((Seq::<char>::empty(), cur as int + 1)));
                assert(acc@ + Seq::<char>::empty() =~= acc@);
            }
            return Some((acc, cur + 1));
        } else if c == '\\' {
            match parse_escape(s, cur + 1) {
                None => {
                    return None;
                },
                Some((ec, j)) => {
                    let ghost prev = acc@;
                    acc.push(ec);
                    proof {
                        if let Some((d, k)) = pt_string(s@, j as int) {
                            assert(prev + (seq![ec] + d) =~= acc@ + d);
                        }
                        assert(pt_string(s@, i as int) == pt_string_prepend(
                            acc@,
                            pt_string(s@, j as int),
                        ));
                    }
                    cur = j;
                },
            }
        } else {
            let ghost prev = acc@;
            acc.push(c);
            proof {
                if let Some((d, k)) = pt_string(s@, cur as int + 1) {
                    assert(prev + (seq![c] + d) =~= acc@ + d);
                }
                assert(pt_string(s@, i as int) == pt_string_prepend(
                    acc@,
                    pt_string(s@, cur as int + 1),
                ));
            }
            cur += 1;
        }
    }
    None
}

fn close_chars() -> (v: Vec<char>)
    ensures
        v@ == seq!['}'],
{
    let mut v: Vec<char> = Vec::new();
    v.push('}');
    proof {
        assert(v@ =~= seq!['}']);
    }
    v
}

/// Reads the exact characters of `lit` at `i`.
fn eat(s: &Vec<char>, i: usize, lit: &Vec<char>) -> (r: Option<usize>)
    ensures
        (match r {
            Some(j) => pt_expect(s@, i as int, lit@) == Some(j as int) && i <= j <= s@.len()
                && j == i + lit@.len(),
            None => pt_expect(s@, i as int, lit@) == None::<int>,
        }),
{
    if lit.len() > s.len() || i > s.len() - lit.len() {
        return None;
    }
    let m = lit.len();
    let mut k: usize = 0;
    while k < m
        invariant
            m == lit@.len(),
            i + m <= s@.len(),
            i + m <= usize::MAX,
            k <= m,
            forall|q: int| 0 <= q < k ==> s@[i + q] == lit@[q],
        decreases m - k,
    {
        if s[i + k] != lit[k] {
            proof {
                assert(s@.subrange(i as int, i as int + lit@.len())[k as int] != lit@[k as int]);
            }
            return None;
        }
        k += 1;
    }
    proof {
        assert(s@.subrange(i as int, i as int + lit@.len()) =~= lit@);
    }
    Some(i + m)
}

/// Reads `true` or `false` at `i`.
fn parse_bool(s: &Vec<char>, i: usize) -> (r: Option<(bool, usize)>)
    requires
        i <= s@.len(),
    ensures
        (match r {
            Some((b, j)) => pt_bool(s@, i as int) == Some((b, j as int)) && i < j <= s@.len(),
            None => pt_bool(s@, i as int) == None::<(bool, int)>,
        }),
{
    let lt = lit_true_chars();
    match eat(s, i, &lt) {
        Some(j) => {
            return Some((true, j));
        },
        None => {},
    }
    let lf = lit_false_chars();
    match eat(s, i, &lf) {
        Some(j) => Some((false, j)),
        None => None,
    }
}

/// Reads a priority name and its closing quote at `i`.
fn parse_prio(s: &Vec<char>, i: usize) -> (r: Option<(Priority, usize)>)
    requires
        i <= s@.len(),
    ensures
        (match r {
            Some((p, j)) => pt_prio(s@, i as int) == Some((p, j as int)) && i < j <= s@.len(),
            None => pt_prio(s@, i as int) == None::<(Priority, int)>,
        }),
{
    let lh = lit_high_chars();
    match eat(s, i, &lh) {
        Some(j) => {
            return Some((Priority::High, j));
        },
        None => {},
    }
    let lm = lit_medium_chars();
    match eat(s, i, &lm) {
        Some(j) => {
            return Some((Priority::Medium, j));
        },
        None => {},
    }
    let ll = lit_low_chars();
    match eat(s, i, &ll) {
        Some(j) => Some((Priority::Low, j)),
        None => None,
    }
}

/// Reads one task record at `i`.
fn parse_task(s: &Vec<char>, i: usize) -> (r: Option<(Task, usize)>)
    requires
        i <= s@.len(),
    ensures
        (match r {
            Some((t, j)) => pt_task(s@, i as int) == Some((t@, j as int)) && i < j <= s@.len(),
            None => pt_task(s@, i as int) == None::<(TaskV, int)>,
        }),
{
    let l1 = lit_task_open_chars();
    let i1 = match eat(s, i, &l1) {
        Some(j) => j,
        None => {
            return None;
        },
    };
    let (id, i2) = match parse_u32(s, i1) {
        Some(p) => p,
        None => {
            return None;
        },
    };
    let l2 = lit_desc_chars();
    let i3 = match eat(s, i2, &l2) {
        Some(j) => j,
        None => {
            return None;
        },
    };
    let (dchars, i4) = match parse_string(s, i3) {
        Some(p) => p,
        None => {
            return None;
        },
    };
    let l3 = lit_completed_chars();
    let i5 = match eat(s, i4, &l3) {
        Some(j) => j,
        None => {
            return None;
        },
    };
    let (b, i6) = match parse_bool(s, i5) {
        Some(p) => p,
        None => {
            return None;
        },
    };
    let l4 = lit_priority_chars();
    let i7 = match eat(s, i6, &l4) {
        Some(j) => j,
        None => {
            return None;
        },
    };
    let (p, i8) = match parse_prio(s, i7) {
        Some(pr) => pr,
        None => {
            return None;
        },
    };
    let lc = close_chars();
    let i9 = match eat(s, i8, &lc) {
        Some(j) => j,
        None => {
            return None;
        },
    };
    let description = chars_to_string(&dchars);
    let t = Task { id: id, description: description, completed: b, priority: p };
    proof {
        assert(t@ =~= (TaskV { id: id, description: dchars@, completed: b, priority: p }));
    }
    Some((t, i9))
}

spec fn pt_list_prepend(pre: Seq<TaskV>, r: Option<(Seq<TaskV>, int)>) -> Option<
    (Seq<TaskV>, int),
> {
    match r {
        Some((ts, k)) => Some((pre + ts, k)),
        None => None,
    }
}

/// Reads one or more comma-separated records at `i`.
fn parse_list(s: &Vec<char>, i: usize) -> (r: Option<(Vec<Task>, usize)>)
    requires
        i <= s@.len(),
    ensures
        (match r {
            Some((v, j)) => pt_list(s@, i as int) == Some((views(v@), j as int)) && i < j
                <= s@.len(),
            None => pt_list(s@, i as int) == None::<(Seq<TaskV>, int)>,
        }),
{
    let n = s.len();
    let mut acc: Vec<Task> = Vec::new();
    let mut cur = i;
    proof {
        assert(views(acc@) =~= Seq::<TaskV>::empty());
        if let Some((ts, k)) = pt_list(s@, i as int) {
            assert(views(acc@) + ts =~= ts);
        }
    }
    while cur < n
        invariant
            i <= cur <= n,
            n == s@.len(),
            pt_list(s@, i as int) == pt_list_prepend(views(acc@), pt_list(s@, cur as int)),
        decreases n - cur,
    {
        match parse_task(s, cur) {
            None => {
                return None;
            },
            Some((t, j)) => {
                let ghost prev = views(acc@);
                let ghost tv = t@;
                proof {
                    assert(views(acc@.push(t)) =~= prev.push(tv));
                }
                acc.push(t);
                if j < n && s[j] == ',' {
                    proof {
                        if let Some((ts2, k2)) = pt_list(s@, j as int + 1) {
                            assert(prev + (seq![tv] + ts2) =~= views(acc@) + ts2);
                        }
                        assert(pt_list(s@, i as int) == pt_list_prepend(
                            views(acc@),
                            pt_list(s@, j as int + 1),
                        ));
                    }
                    cur = j + 1;
                } else {
                    proof {
                        assert(pt_list(s@, cur as int) == Some((seq![tv], j as int)));
                        assert(prev + seq![tv] =~= views(acc@));
                        assert(pt_list(s@, i as int) == Some((views(acc@), j as int)));
                    }
                    return Some((acc, j));
                }
            },
        }
    }
    None
}

/// Reads a whole stored text. Returns the store it writes down, or `None`
/// when the text is not a stored form (it is corrupt).
pub fn parse_tasks(content: &str) -> (r: Option<Vec<Task>>)
    ensures
        (match r {
            Some(v) => parse_tasks_spec(content@) == Some(views(v@)),
            None => parse_tasks_spec(content@) == None::<Seq<TaskV>>,
        }),
{
    let s = str_to_chars(content);
    let n = s.len();
    if n == 2 && s[0] == '[' {
        if s[1] == ']' {
            let v: Vec<Task> = Vec::new();
            proof {
                assert(views(v@) =~= Seq::<TaskV>::empty());
            }
            return Some(v);
        }
    }
    if n == 0 {
        return None;
    }
    if s[0] != '[' {
        return None;
    }
    match parse_list(&s, 1) {
        None => None,
        Some((v, j)) => {
            if j < n && j + 1 == n && s[j] == ']' {
                Some(v)
            } else {
                None
            }
        },
    }
}


proof fn lemma_pt_expect_at(pre: Seq<char>, lit: Seq<char>, suf: Seq<char>)
    ensures
        pt_expect(pre + lit + suf, pre.len() as int, lit) == Some(
            pre.len() as int + lit.len() as int,
        ),
{
    let s = pre + lit + suf;
    assert(s.subrange(pre.len() as int, pre.len() as int + lit.len() as int) =~= lit);
}

proof fn lemma_dec_props(n: int)
    requires
        0 <= n,
    ensures
        dec(n).len() >= 1,
        forall|k: int| 0 <= k < dec(n).len() ==> is_digit(dec(n)[k]),
        digits_val(dec(n)) == n,
    decreases n,
{
    if n < 10 {
        reveal_with_fuel(digits_val, 3);
        assert(dec(n) =~= seq![dec_digit(n)]);
        assert(dec(n).drop_last() =~= Seq::<char>::empty());
        assert(digits_val(dec(n)) == digit_val(dec_digit(n)));
    } else {
        lemma_dec_props(n / 10);
        assert(dec(n) == dec(n / 10).push(dec_digit(n % 10)));
        assert(dec(n).drop_last() =~= dec(n / 10));
        assert(dec(n).last() == dec_digit(n % 10));
        assert(digits_val(dec(n)) == digits_val(dec(n / 10)) * 10 + digit_val(dec_digit(n % 10)));
        assert forall|k: int| 0 <= k < dec(n).len() implies is_digit(dec(n)[k]) by {
            if k < dec(n).len() - 1 {
                assert(dec(n)[k] == dec(n / 10)[k]);
            }
        }
    }
}

proof fn lemma_pt_u32_at(pre: Seq<char>, n: u32, suf: Seq<char>)
    requires
        suf.len() > 0,
        !is_digit(suf[0]),
    ensures
        pt_u32(pre + dec(n as int) + suf, pre.len() as int) == Some(
            (n, pre.len() as int + dec(n as int).len() as int),
        ),
{
    let s = pre + dec(n as int) + suf;
    let i = pre.len() as int;
    let j = i + dec(n as int).len() as int;
    lemma_dec_props(n as int);
    assert forall|m: int| i <= m < j implies is_digit(s[m]) by {
        assert(s[m] == dec(n as int)[m - i]);
    }
    assert(s[j] == suf[0]);
    lemma_digit_run_end_of(s, i, j);
    assert(s.subrange(i, j) =~= dec(n as int));
}

proof fn lemma_hex_char_val(v: int)
    requires
        0 <= v < 16,
    ensures
        is_hex(hex_char(v)),
        hex_val(hex_char(v)) == v,
{
}

proof fn lemma_ctrl_char_of(c: char)
    requires
        (c as u32) < 32,
    ensures
        ctrl_char(c as u32 as int) == c,
{
}

proof fn lemma_pt_string_at(pre: Seq<char>, d: Seq<char>, suf: Seq<char>)
    ensures
        pt_string(pre + ser_str(d) + suf, pre.len() as int) == Some(
            (d, pre.len() as int + ser_str(d).len() as int),
        ),
    decreases d.len(),
{
    let s = pre + ser_str(d) + suf;
    let i = pre.len() as int;
    if d.len() == 0 {
        reveal_with_fuel(esc, 2);
        assert(esc(d) =~= Seq::<char>::empty());
        assert(ser_str(d) =~= seq!['"']);
        assert(s[i] == '"');
        assert(i < s.len());
        assert(pt_string(s, i) == Some((Seq::<char>::empty(), i + 1)));
        assert(Seq::<char>::empty() =~= d);
    } else {
        let c = d[0];
        let d2 = d.drop_first();
        let pre2 = pre + esc_char(c);
        assert(esc(d) == esc_char(c) + esc(d2));
        assert(ser_str(d) =~= esc_char(c) + ser_str(d2));
        assert(s =~= pre2 + ser_str(d2) + suf);
        lemma_pt_string_at(pre2, d2, suf);
        let i2 = pre2.len() as int;
        let kend = i2 + ser_str(d2).len() as int;
        assert(kend == i + ser_str(d).len() as int);
        assert(seq![c] + d2 =~= d);
        if c == '"' {
            assert(s[i] == '\\');
            assert(s[i + 1] == '"');
            assert(pt_escape(s, i + 1) == Some(('"', i + 2)));
            assert(i2 == i + 2);
            assert(pt_string(s, i) == Some((d, kend)));
        } else if c == '\\' {
            assert(s[i] == '\\');
            assert(s[i + 1] == '\\');
            assert(pt_escape(s, i + 1) == Some(('\\', i + 2)));
            assert(i2 == i + 2);
            assert(pt_string(s, i) == Some((d, kend)));
        } else if (c as u32) < 32 {
            let cv = c as u32 as int;
            assert(esc_char(c) == seq![
                '\\',
                'u',
                '0',
                '0',
                hex_char(cv / 16),
                hex_char(cv % 16),
            ]);
            assert(s[i] == '\\');
            assert(s[i + 1] == 'u');
            assert(s[i + 2] == '0');
            assert(s[i + 3] == '0');
            assert(s[i + 4] == hex_char(cv / 16));
            assert(s[i + 5] == hex_char(cv % 16));
            lemma_hex_char_val(cv / 16);
            lemma_hex_char_val(cv % 16);
            assert(16 * hex_val(s[i + 4]) + hex_val(s[i + 5]) == cv);
            lemma_ctrl_char_of(c);
            assert(pt_escape(s, i + 1) == Some((c, i + 6)));
            assert(i2 == i + 6);
            assert(pt_string(s, i) == Some((d, kend)));
        } else {
            assert(esc_char(c) == seq![c]);
            assert(s[i] == c);
            assert(i2 == i + 1);
            assert(pt_string(s, i) == Some((d, kend)));
        }
    }
}

proof fn lemma_pt_bool_at(pre: Seq<char>, b: bool, suf: Seq<char>)
    ensures
        pt_bool(pre + lit_bool(b) + suf, pre.len() as int) == Some(
            (b, pre.len() as int + lit_bool(b).len() as int),
        ),
{
    let s = pre + lit_bool(b) + suf;
    let i = pre.len() as int;
    if b {
        lemma_pt_expect_at(pre, lit_true(), suf);
    } else {
        assert(s[i] == 'f');
        if 0 <= i && i + lit_true().len() <= s.len() {
            assert(s.subrange(i, i + lit_true().len() as int)[0] == 'f');
            assert(s.subrange(i, i + lit_true().len() as int) != lit_true());
        }
        assert(pt_expect(s, i, lit_true()) == None::<int>);
        lemma_pt_expect_at(pre, lit_false(), suf);
    }
}

proof fn lemma_pt_prio_at(pre: Seq<char>, p: Priority, suf: Seq<char>)
    ensures
        pt_prio(pre + lit_prio(p) + suf, pre.len() as int) == Some(
            (p, pre.len() as int + lit_prio(p).len() as int),
        ),
{
    let s = pre + lit_prio(p) + suf;
    let i = pre.len() as int;
    match p {
        Priority::High => {
            lemma_pt_expect_at(pre, lit_high(), suf);
        },
        Priority::Medium => {
            assert(s[i] == 'M');
            if 0 <= i && i + lit_high().len() <= s.len() {
                assert(s.subrange(i, i + lit_high().len() as int)[0] == 'M');
                assert(s.subrange(i, i + lit_high().len() as int) != lit_high());
            }
            assert(pt_expect(s, i, lit_high()) == None::<int>);
            lemma_pt_expect_at(pre, lit_medium(), suf);
        },
        Priority::Low => {
            assert(s[i] == 'L');
            if 0 <= i && i + lit_high().len() <= s.len() {
                assert(s.subrange(i, i + lit_high().len() as int)[0] == 'L');
                assert(s.subrange(i, i + lit_high().len() as int) != lit_high());
            }
            assert(pt_expect(s, i, lit_high()) == None::<int>);
            if 0 <= i && i + lit_medium().len() <= s.len() {
                assert(s.subrange(i, i + lit_medium().len() as int)[0] == 'L');
                assert(s.subrange(i, i + lit_medium().len() as int) != lit_medium());
            }
            assert(pt_expect(s, i, lit_medium()) == None::<int>);
            lemma_pt_expect_at(pre, lit_low(), suf);
        },
    }
}

proof fn lemma_seq_assoc(a: Seq<char>, b: Seq<char>, c: Seq<char>)
    ensures
        (a + b) + c == a + (b + c),
{
    assert((a + b) + c =~= a + (b + c));
}

#[verifier::rlimit(100)]
proof fn lemma_pt_task_at(pre: Seq<char>, t: TaskV, suf: Seq<char>)
    ensures
        pt_task(pre + ser_task(t) + suf, pre.len() as int) == Some(
            (t, pre.len() as int + ser_task(t).len() as int),
        ),
{
    let a1 = lit_task_open();
    let a2 = dec(t.id as int);
    let a3 = lit_desc();
    let a4 = ser_str(t.description);
    let a5 = lit_completed();
    let a6 = lit_bool(t.completed);
    let a7 = lit_priority();
    let a8 = lit_prio(t.priority);
    let a9 = seq!['}'];
    let s = pre + ser_task(t) + suf;
    let i = pre.len() as int;

    let p1 = pre + a1;
    let p2 = p1 + a2;
    let p3 = p2 + a3;
    let p4 = p3 + a4;
    let p5 = p4 + a5;
    let p6 = p5 + a6;
    let p7 = p6 + a7;
    let p8 = p7 + a8;
    let p9 = p8 + a9;

    // pre + ser_task(t) regrouped one join at a time
    assert(ser_task(t) == ((((((((a1 + a2) + a3) + a4) + a5) + a6) + a7) + a8) + a9));
    lemma_seq_assoc(pre, (((((((a1 + a2) + a3) + a4) + a5) + a6) + a7) + a8), a9);
    lemma_seq_assoc(pre, ((((((a1 + a2) + a3) + a4) + a5) + a6) + a7), a8);
    lemma_seq_assoc(pre, (((((a1 + a2) + a3) + a4) + a5) + a6), a7);
    lemma_seq_assoc(pre, ((((a1 + a2) + a3) + a4) + a5), a6);
    lemma_seq_assoc(pre, (((a1 + a2) + a3) + a4), a5);
    lemma_seq_assoc(pre, ((a1 + a2) + a3), a4);
    lemma_seq_assoc(pre, (a1 + a2), a3);
    lemma_seq_assoc(pre, a1, a2);
    assert(pre + ser_task(t) == p9);
    assert(s == p9 + suf);

    let q9 = a9 + suf;
    let q8 = a8 + q9;
    let q7 = a7 + q8;
    let q6 = a6 + q7;
    let q5 = a5 + q6;
    let q4 = a4 + q5;
    let q3 = a3 + q4;
    let q2 = a2 + q3;

    lemma_seq_assoc(p8, a9, suf);
    assert(s == p8 + q9);
    lemma_seq_assoc(p7, a8, q9);
    assert(s == p7 + q8);
    lemma_seq_assoc(p6, a7, q8);
    assert(s == p6 + q7);
    lemma_seq_assoc(p5, a6, q7);
    assert(s == p5 + q6);
    lemma_seq_assoc(p4, a5, q6);
    assert(s == p4 + q5);
    lemma_seq_assoc(p3, a4, q5);
    assert(s == p3 + q4);
    lemma_seq_assoc(p2, a3, q4);
    assert(s == p2 + q3);
    lemma_seq_assoc(p1, a2, q3);
    assert(s == p1 + q2);

    lemma_pt_expect_at(pre, a1, q2);
    assert(pt_expect(s, i, lit_task_open()) == Some(p1.len() as int));

    assert(q3[0] == ',');
    lemma_pt_u32_at(p1, t.id, q3);
    assert(pt_u32(s, p1.len() as int) == Some((t.id, p2.len() as int)));

    lemma_pt_expect_at(p2, a3, q4);
    assert(pt_expect(s, p2.len() as int, lit_desc()) == Some(p3.len() as int));

    lemma_pt_string_at(p3, t.description, q5);
    assert(pt_string(s, p3.len() as int) == Some((t.description, p4.len() as int)));

    lemma_pt_expect_at(p4, a5, q6);
    assert(pt_expect(s, p4.len() as int, lit_completed()) == Some(p5.len() as int));

    lemma_pt_bool_at(p5, t.completed, q7);
    assert(pt_bool(s, p5.len() as int) == Some((t.completed, p6.len() as int)));

    lemma_pt_expect_at(p6, a7, q8);
    assert(pt_expect(s, p6.len() as int, lit_priority()) == Some(p7.len() as int));

    lemma_pt_prio_at(p7, t.priority, q9);
    assert(pt_prio(s, p7.len() as int) == Some((t.priority, p8.len() as int)));

    lemma_pt_expect_at(p8, a9, suf);
    assert(pt_expect(s, p8.len() as int, seq!['}']) == Some(p9.len() as int));

    assert(p9.len() as int == i + ser_task(t).len() as int);
    assert((TaskV {
        id: t.id,
        description: t.description,
        completed: t.completed,
        priority: t.priority,
    }) =~= t);
}

proof fn lemma_ser_task_first(t: TaskV)
    ensures
        ser_task(t).len() > 0,
        ser_task(t)[0] == '{',
{
    let a1 = lit_task_open();
    assert(ser_task(t)[0] == a1[0]);
}

proof fn lemma_pt_list_at(pre: Seq<char>, ts: Seq<TaskV>, suf: Seq<char>)
    requires
        ts.len() >= 1,
        suf.len() > 0,
        suf[0] == ']',
    ensures
        pt_list(pre + ser_list(ts) + suf, pre.len() as int) == Some(
            (ts, pre.len() as int + ser_list(ts).len() as int),
        ),
    decreases ts.len(),
{
    let s = pre + ser_list(ts) + suf;
    let i = pre.len() as int;
    let t0 = ts[0];
    if ts.len() == 1 {
        assert(ser_list(ts) == ser_task(t0));
        lemma_pt_task_at(pre, t0, suf);
        let j = i + ser_task(t0).len() as int;
        assert(s[j] == ']');
        assert(pt_list(s, i) == Some((seq![t0], j)));
        assert(seq![t0] =~= ts);
    } else {
        let rest = ts.drop_first();
        let st = ser_task(t0);
        let sl = ser_list(rest);
        let comma = seq![','];
        assert(ser_list(ts) == (st + comma) + sl);
        // regroup s around the leading task
        lemma_seq_assoc(pre, st + comma, sl);
        lemma_seq_assoc(pre, st, comma);
        let pre2 = (pre + st) + comma;
        assert(s == (pre2 + sl) + suf);
        lemma_seq_assoc(pre2, sl, suf);
        lemma_seq_assoc(pre + st, comma, sl + suf);
        let r1 = comma + (sl + suf);
        assert(s == (pre + st) + r1);
        lemma_pt_task_at(pre, t0, r1);
        let j = i + st.len() as int;
        assert(s[j] == r1[0]);
        assert(s[j] == ',');
        lemma_pt_list_at(pre2, rest, suf);
        assert(pt_list(s, j + 1) == Some((rest, pre2.len() as int + sl.len() as int)));
        assert(seq![t0] + rest =~= ts);
        assert(pre2.len() as int + sl.len() as int == i + ser_list(ts).len() as int);
    }
}

/// Writing a store and reading the text back yields exactly that store:
/// the stored form loses nothing.
pub proof fn lemma_write_read_roundtrip(ts: Seq<TaskV>)
    ensures
        parse_tasks_spec(ser_tasks(ts)) == Some(ts),
{
    let s = ser_tasks(ts);
    if ts.len() == 0 {
        assert(ser_list(ts) =~= Seq::<char>::empty());
        assert(s =~= seq!['[', ']']);
        assert(s[0] == '[');
        assert(s[1] == ']');
        assert(parse_tasks_spec(s) == Some(Seq::<TaskV>::empty()));
        assert(Seq::<TaskV>::empty() =~= ts);
    } else {
        lemma_ser_task_first(ts[0]);
        assert(ser_list(ts)[0] == ser_task(ts[0])[0]);
        assert(s[1] == '{');
        assert(s[0] == '[');
        assert(!(s.len() == 2 && s[0] == '[' && s[1] == ']'));
        let pre = seq!['['];
        let suf = seq![']'];
        assert(s =~= pre + ser_list(ts) + suf);
        lemma_pt_list_at(pre, ts, suf);
        let j = 1 + ser_list(ts).len() as int;
        assert(pt_list(s, 1) == Some((ts, j)));
        assert(s[j] == ']');
        assert(j + 1 == s.len());
    }
}

} // verus!



