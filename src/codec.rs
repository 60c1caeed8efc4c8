use vstd::prelude::*;

use crate::task::TaskStatus;

verus! {

/// A task as the document holds it: the timestamps are text.
#[derive(Debug)]
pub struct Record {
    pub file_path: String,
    pub delete_at: String,
    pub created_at: String,
    pub status: TaskStatus,
}

/// The mathematical value of a record.
pub struct RecordView {
    pub file_path: Seq<char>,
    pub delete_at: Seq<char>,
    pub created_at: Seq<char>,
    pub status: TaskStatus,
}

impl View for Record {
    type V = RecordView;

    open spec fn view(&self) -> RecordView {
        RecordView {
            file_path: self.file_path@,
            delete_at: self.delete_at@,
            created_at: self.created_at@,
            status: self.status,
        }
    }
}

/// The views of a sequence of records.
pub open spec fn records_view(v: Seq<Record>) -> Seq<RecordView> {
    v.map_values(|r: Record| r@)
}

/// `x` stands in `t` from position `i` on.
pub open spec fn prefix_at(t: Seq<char>, i: int, x: Seq<char>) -> bool {
    0 <= i && i + x.len() <= t.len() && t.subrange(i, i + x.len()) == x
}

proof fn lemma_prefix_concat(t: Seq<char>, i: int, a: Seq<char>, b: Seq<char>)
    ensures
        prefix_at(t, i, a + b) <==> (prefix_at(t, i, a) && prefix_at(t, i + a.len(), b)),
{
    if prefix_at(t, i, a + b) {
        assert(t.subrange(i, i + a.len()) =~= (a + b).subrange(0, a.len() as int));
        assert(t.subrange(i + a.len(), i + a.len() + b.len()) =~= (a + b).subrange(
            a.len() as int,
            (a.len() + b.len()) as int,
        ));
        assert((a + b).subrange(0, a.len() as int) =~= a);
        assert((a + b).subrange(a.len() as int, (a.len() + b.len()) as int) =~= b);
    }
    if prefix_at(t, i, a) && prefix_at(t, i + a.len(), b) {
        assert(t.subrange(i, i + (a + b).len()) =~= a + b);
    }
}

/// The lower-case hexadecimal digit of `n`, for `n < 16`.
pub open spec fn hex_digit(n: u32) -> char {
    if n < 10 {
        ((n + 48) as u8) as char
    } else {
        ((n + 87) as u8) as char
    }
}

/// How one character of a string is written inside a JSON string literal:
/// the quote, the backslash and five control characters take a short
/// backslash escape, the other control characters a `\u00XX` escape in
/// lower-case hexadecimal; every other character stands as it is.
pub open spec fn escape_char(c: char) -> Seq<char> {
    if c == '"' {
        seq!['\\', '"']
    } else if c == '\\' {
        seq!['\\', '\\']
    } else if c == '\n' {
        seq!['\\', 'n']
    } else if c == '\r' {
        seq!['\\', 'r']
    } else if c == '\t' {
        seq!['\\', 't']
    } else if c == '\u{8}' {
        seq!['\\', 'b']
    } else if c == '\u{c}' {
        seq!['\\', 'f']
    } else if (c as u32) < 32 {
        seq!['\\', 'u', '0', '0', hex_digit((c as u32) / 16), hex_digit((c as u32) % 16)]
    } else {
        seq![c]
    }
}

/// The characters of `s`, each escaped.
pub open spec fn escaped(s: Seq<char>) -> Seq<char>
    decreases s.len(),
{
    if s.len() == 0 {
        Seq::empty()
    } else {
        escaped(s.drop_last()) + escape_char(s.last())
    }
}

/// `s` as a JSON string literal.
pub open spec fn quoted(s: Seq<char>) -> Seq<char> {
    seq!['"'] + escaped(s) + seq!['"']
}

proof fn lemma_escaped_concat(a: Seq<char>, b: Seq<char>)
    ensures
        escaped(a + b) == escaped(a) + escaped(b),
    decreases b.len(),
{
    if b.len() == 0 {
        assert(a + b =~= a);
        assert(escaped(a) + escaped(b) =~= escaped(a));
    } else {
        lemma_escaped_concat(a, b.drop_last());
        assert((a + b).drop_last() =~= a + b.drop_last());
        assert(escaped(a) + escaped(b) =~= escaped(a) + escaped(b.drop_last()) + escape_char(
            b.last(),
        ));
    }
}

proof fn lemma_escaped_single(c: char)
    ensures
        escaped(seq![c]) == escape_char(c),
{
    assert(seq![c].drop_last() =~= Seq::<char>::empty());
    assert(seq![c].last() == c);
    assert(escaped(Seq::<char>::empty()) + escape_char(c) =~= escape_char(c));
}

/// Splits `escaped(s)` at its `m`-th character.
proof fn lemma_escaped_split(s: Seq<char>, m: int)
    requires
        0 <= m < s.len(),
    ensures
        escaped(s) == escaped(s.take(m)) + escape_char(s[m]) + escaped(s.skip(m + 1)),
        escaped(s.take(m + 1)) == escaped(s.take(m)) + escape_char(s[m]),
{
    assert(s =~= s.take(m) + seq![s[m]] + s.skip(m + 1));
    lemma_escaped_concat(s.take(m) + seq![s[m]], s.skip(m + 1));
    lemma_escaped_concat(s.take(m), seq![s[m]]);
    lemma_escaped_single(s[m]);
    assert(s.take(m + 1) =~= s.take(m) + seq![s[m]]);
}

/// Relies on `String::push`: appends one character at the end.
#[verifier::external_body]
fn push_char(s: &mut String, c: char)
    ensures
        final(s)@ == old(s)@.push(c),
{
    s.push(c);
}

/// Relies on `str::chars`: the characters of the string, in order.
#[verifier::external_body]
fn chars_of(s: &str) -> (r: Vec<char>)
    ensures
        r@ == s@,
{
    s.chars().collect()
}

/// The lower-case hexadecimal digit of `n`.
fn hex_digit_exec(n: u32) -> (r: char)
    requires
        n < 16,
    ensures
        r == hex_digit(n),
{
    if n < 10 {
        ((n + 48) as u8) as char
    } else {
        ((n + 87) as u8) as char
    }
}

/// Appends `escape_char(c)` to `out`.
fn push_escaped(out: &mut String, c: char)
    ensures
        final(out)@ == old(out)@ + escape_char(c),
{
    let code = if c == '"' {
        '"'
    } else if c == '\\' {
        '\\'
    } else if c == '\n' {
        'n'
    } else if c == '\r' {
        'r'
    } else if c == '\t' {
        't'
    } else if c == '\u{8}' {
        'b'
    } else if c == '\u{c}' {
        'f'
    } else if (c as u32) < 32 {
        push_char(out, '\\');
        push_char(out, 'u');
        push_char(out, '0');
        push_char(out, '0');
        push_char(out, hex_digit_exec((c as u32) / 16));
        push_char(out, hex_digit_exec((c as u32) % 16));
        assert(final(out)@ =~= old(out)@ + escape_char(c));
        return;
    } else {
        push_char(out, c);
        assert(final(out)@ =~= old(out)@ + escape_char(c));
        return;
    };
    push_char(out, '\\');
    push_char(out, code);
    assert(final(out)@ =~= old(out)@ + escape_char(c));
}

/// Appends `quoted(s)` to `out`.
fn push_quoted(out: &mut String, s: &str)
    ensures
        final(out)@ == old(out)@ + quoted(s@),
{
    let cs = chars_of(s);
    push_char(out, '"');
    let mut k: usize = 0;
    while k < cs.len()
        invariant
            k <= cs@.len(),
            cs@ == s@,
            out@ == old(out)@ + seq!['"'] + escaped(cs@.take(k as int)),
        decreases cs@.len() - k,
    {
        proof {
            lemma_escaped_split(cs@, k as int);
        }
        push_escaped(out, cs[k]);
        k = k + 1;
    }
    push_char(out, '"');
    proof {
        assert(cs@.take(cs@.len() as int) =~= cs@);
    }
    assert(out@ =~= old(out)@ + quoted(s@));
}

} // verus!

verus! {

/// The characters that `escape_char` writes with a backslash.
pub open spec fn needs_escape(c: char) -> bool {
    c == '"' || c == '\\' || (c as u32) < 32
}

/// The control characters that take a short escape.
pub open spec fn has_short_escape(c: char) -> bool {
    c == '\n' || c == '\r' || c == '\t' || c == '\u{8}' || c == '\u{c}'
}

proof fn lemma_char_eq(a: char, b: char)
    requires
        a as u32 == b as u32,
    ensures
        a == b,
{
    vstd::utf8::char_u32_cast(a, a as u32);
    vstd::utf8::char_u32_cast(b, b as u32);
}

/// Reads the `\u00XX` escape of a control character at position `k`.
/// Where some `escape_char(x)` stands at `k`, the result is `x`.
fn read_control_escape(t: &Vec<char>, k: usize) -> (r: Option<char>)
    requires
        k + 1 < t@.len(),
        t@[k as int] == '\\',
        t@[k + 1] == 'u',
    ensures
        r matches Some(d) ==> prefix_at(t@, k as int, escape_char(d)) && escape_char(d).len() == 6,
        forall|x: char| #[trigger]
            prefix_at(t@, k as int, escape_char(x)) ==> r == Some(x),
{
    proof {
        assert forall|x: char| #[trigger] prefix_at(t@, k as int, escape_char(x)) implies (x as u32)
            < 32 && !has_short_escape(x) && k + 5 < t@.len() && t@[k + 2] == '0' && t@[k + 3]
            == '0' && t@[k + 4] == hex_digit((x as u32) / 16) && t@[k + 5] == hex_digit(
            (x as u32) % 16,
        ) by {
            let e = escape_char(x);
            assert(t@[k as int] == e[0]);
            assert(t@[k + 1] == e[1]);
            if (x as u32) < 32 && !has_short_escape(x) && x != '"' && x != '\\' {
                assert(t@[k + 2] == e[2]);
                assert(t@[k + 3] == e[3]);
                assert(t@[k + 4] == e[4]);
                assert(t@[k + 5] == e[5]);
            }
        }
    }
    if t.len() - k <= 5 {
        return None;
    }
    if t[k + 2] != '0' || t[k + 3] != '0' {
        return None;
    }
    let h1 = t[k + 4];
    let h2 = t[k + 5];
    let hi: u32 = if h1 == '0' {
        0
    } else if h1 == '1' {
        1
    } else {
        return None;
    };
    let c2 = h2 as u32;
    let lo: u32 = if 48 <= c2 && c2 <= 57 {
        c2 - 48
    } else if 97 <= c2 && c2 <= 102 {
        c2 - 87
    } else {
        return None;
    };
    let v: u32 = hi * 16 + lo;
    let d = (v as u8) as char;
    proof {
        assert(d as u32 == v);
        assert forall|x: char| #[trigger] prefix_at(t@, k as int, escape_char(x)) implies x == d by {
            let xv = x as u32;
            assert(hex_digit(xv / 16) as u32 == xv / 16 + 48);
            assert(xv / 16 == hi);
            if xv % 16 < 10 {
                assert(hex_digit(xv % 16) as u32 == xv % 16 + 48);
            } else {
                assert(hex_digit(xv % 16) as u32 == xv % 16 + 87);
            }
            assert(xv % 16 == lo);
            assert(xv == v);
            lemma_char_eq(x, d);
        }
    }
    if d == '\n' || d == '\r' || d == '\t' || d == '\u{8}' || d == '\u{c}' {
        return None;
    }
    proof {
        assert(d as u32 == v);
        assert(hex_digit(v / 16) as u32 == h1 as u32);
        lemma_char_eq(hex_digit(v / 16), h1);
        if lo < 10 {
            assert(hex_digit(v % 16) as u32 == lo + 48);
        } else {
            assert(hex_digit(v % 16) as u32 == lo + 87);
        }
        lemma_char_eq(hex_digit(v % 16), h2);
        assert(escape_char(d) =~= t@.subrange(k as int, k + 6));
    }
    Some(d)
}

/// Where `quoted(s)` stands at `i`, the escape of `s[m]` (or, past the
/// last character, the closing quote) follows the escapes of `s.take(m)`.
proof fn lemma_quoted_at(t: Seq<char>, i: int, s: Seq<char>, m: int)
    requires
        prefix_at(t, i, quoted(s)),
        0 <= m <= s.len(),
    ensures
        t.subrange(i + 1, i + 1 + escaped(s.take(m)).len()) == escaped(s.take(m)),
        m < s.len() ==> prefix_at(t, i + 1 + escaped(s.take(m)).len(), escape_char(s[m])),
        m == s.len() ==> i + 1 + escaped(s).len() < t.len() && t[i + 1 + escaped(s).len()] == '"',
{
    let q = seq!['"'] + escaped(s);
    lemma_prefix_concat(t, i, q, seq!['"']);
    lemma_prefix_concat(t, i, seq!['"'], escaped(s));
    if m < s.len() {
        lemma_escaped_split(s, m);
        let a = escaped(s.take(m));
        let b = escape_char(s[m]);
        lemma_prefix_concat(t, i + 1, a + b, escaped(s.skip(m + 1)));
        lemma_prefix_concat(t, i + 1, a, b);
    } else {
        assert(s.take(m) =~= s);
        assert(t[i + 1 + escaped(s).len()] == t.subrange(
            i + 1 + escaped(s).len(),
            i + 2 + escaped(s).len(),
        )[0]);
    }
}

/// Reads the JSON string literal that starts at position `i` of `t`, as
/// `quoted` writes it, and returns its content and the position after it.
/// Where some `quoted(s)` stands at `i`, the result is `s`.
fn parse_quoted(t: &Vec<char>, i: usize) -> (r: Option<(Vec<char>, usize)>)
    requires
        i <= t@.len(),
    ensures
        r matches Some((s, j)) ==> j == i + quoted(s@).len() && prefix_at(
            t@,
            i as int,
            quoted(s@),
        ),
        forall|s: Seq<char>| #[trigger]
            prefix_at(t@, i as int, quoted(s)) ==> (r matches Some((s2, j)) && s2@ == s),
{
    if i >= t.len() || t[i] != '"' {
        proof {
            assert forall|s: Seq<char>| !#[trigger] prefix_at(t@, i as int, quoted(s)) by {
                if prefix_at(t@, i as int, quoted(s)) {
                    assert(t@[i as int] == t@.subrange(i as int, i + quoted(s).len())[0]);
                }
            }
        }
        return None;
    }
    let mut out: Vec<char> = Vec::new();
    let mut k: usize = i + 1;
    proof {
        assert(t@.subrange(i + 1, k as int) =~= escaped(out@));
        assert forall|s: Seq<char>| #[trigger] prefix_at(t@, i as int, quoted(s)) implies out@.len()
            <= s.len() && out@ == s.take(out@.len() as int) by {
            assert(s.take(0) =~= out@);
        }
    }
    while k < t.len()
        invariant
            i < k <= t@.len(),
            t@[i as int] == '"',
            t@.subrange(i + 1, k as int) == escaped(out@),
            forall|s: Seq<char>| #[trigger]
                prefix_at(t@, i as int, quoted(s)) ==> out@.len() <= s.len() && out@ == s.take(
                    out@.len() as int,
                ),
        decreases t@.len() - k,
    {
        let ghost m = out@.len() as int;
        let c = t[k];
        if c == '"' {
            proof {
                assert(t@.subrange(i as int, k + 1) =~= quoted(out@));
                assert forall|s: Seq<char>| #[trigger] prefix_at(t@, i as int, quoted(s)) implies out@
                    == s by {
                    lemma_quoted_at(t@, i as int, s, m);
                    if m < s.len() {
                        assert(t@[k as int] == escape_char(s[m])[0]);
                    }
                    assert(s.take(s.len() as int) =~= s);
                }
            }
            return Some((out, k + 1));
        }
        let ghost prev = out@;
        if c == '\\' {
            if k + 1 >= t.len() {
                proof {
                    assert forall|s: Seq<char>| !#[trigger] prefix_at(t@, i as int, quoted(s)) by {
                        if prefix_at(t@, i as int, quoted(s)) {
                            lemma_quoted_at(t@, i as int, s, m);
                            if m < s.len() {
                                assert(t@[k as int] == escape_char(s[m])[0]);
                                assert(needs_escape(s[m]));
                                assert(escape_char(s[m]).len() >= 2);
                            } else {
                                assert(s.take(m) =~= s);
                            }
                        }
                    }
                }
                return None;
            }
            let e = t[k + 1];
            if e == 'u' {
                let ghost k0 = k as int;
                let d = match read_control_escape(t, k) {
                    Some(d) => d,
                    None => {
                        proof {
                            assert forall|s: Seq<char>| !#[trigger] prefix_at(t@, i as int, quoted(s)) by {
                                if prefix_at(t@, i as int, quoted(s)) {
                                    lemma_quoted_at(t@, i as int, s, m);
                                    if m == s.len() {
                                        assert(s.take(m) =~= s);
                                    }
                                }
                            }
                        }
                        return None;
                    },
                };
                out.push(d);
                k = k + 6;
                proof {
                    assert(out@.drop_last() =~= prev);
                    assert(t@.subrange(i + 1, k as int) =~= t@.subrange(i + 1, k0) + t@.subrange(k0, k0 + 6));
                    assert(t@.subrange(i + 1, k as int) =~= escaped(out@));
                    assert forall|s: Seq<char>| #[trigger] prefix_at(t@, i as int, quoted(s)) implies out@.len()
                        <= s.len() && out@ == s.take(out@.len() as int) by {
                        lemma_quoted_at(t@, i as int, s, m);
                        if m == s.len() {
                            assert(s.take(m) =~= s);
                        } else {
                            assert(s[m] == d);
                            assert(out@ =~= s.take(m + 1));
                        }
                    }
                }
                continue;
            }
            let d = if e == '"' {
                '"'
            } else if e == '\\' {
                '\\'
            } else if e == 'n' {
                '\n'
            } else if e == 'r' {
                '\r'
            } else if e == 't' {
                '\t'
            } else if e == 'b' {
                '\u{8}'
            } else if e == 'f' {
                '\u{c}'
            } else {
                proof {
                    assert forall|s: Seq<char>| !#[trigger] prefix_at(t@, i as int, quoted(s)) by {
                        if prefix_at(t@, i as int, quoted(s)) {
                            lemma_quoted_at(t@, i as int, s, m);
                            if m < s.len() {
                                assert(t@[k as int] == escape_char(s[m])[0]);
                                assert(needs_escape(s[m]));
                                assert(t@[k + 1] == escape_char(s[m])[1]);
                            } else {
                                assert(s.take(m) =~= s);
                            }
                        }
                    }
                }
                return None;
            };
            out.push(d);
            k = k + 2;
            proof {
                assert(out@.drop_last() =~= prev);
                assert(escape_char(d) =~= seq![c, e]);
                assert(t@.subrange(i + 1, k as int) =~= escaped(out@));
                assert forall|s: Seq<char>| #[trigger] prefix_at(t@, i as int, quoted(s)) implies out@.len()
                    <= s.len() && out@ == s.take(out@.len() as int) by {
                    lemma_quoted_at(t@, i as int, s, m);
                    if m == s.len() {
                        assert(s.take(m) =~= s);
                    } else {
                        assert(t@[k - 2] == escape_char(s[m])[0]);
                        assert(t@[k - 1] == escape_char(s[m])[1]);
                        assert(s[m] == d);
                        assert(out@ =~= s.take(m + 1));
                    }
                }
            }
        } else {
            if needs_escape_exec(c) {
                proof {
                    assert forall|s: Seq<char>| !#[trigger] prefix_at(t@, i as int, quoted(s)) by {
                        if prefix_at(t@, i as int, quoted(s)) {
                            lemma_quoted_at(t@, i as int, s, m);
                            if m < s.len() {
                                assert(t@[k as int] == escape_char(s[m])[0]);
                            } else {
                                assert(s.take(m) =~= s);
                            }
                        }
                    }
                }
                return None;
            }
            out.push(c);
            k = k + 1;
            proof {
                assert(out@.drop_last() =~= prev);
                assert(escape_char(c) =~= seq![c]);
                assert(t@.subrange(i + 1, k as int) =~= escaped(out@));
                assert forall|s: Seq<char>| #[trigger] prefix_at(t@, i as int, quoted(s)) implies out@.len()
                    <= s.len() && out@ == s.take(out@.len() as int) by {
                    lemma_quoted_at(t@, i as int, s, m);
                    if m == s.len() {
                        assert(s.take(m) =~= s);
                    } else {
                        assert(t@[k - 1] == escape_char(s[m])[0]);
                        assert(s[m] == c);
                        assert(out@ =~= s.take(m + 1));
                    }
                }
            }
        }
    }
    proof {
        assert forall|s: Seq<char>| !#[trigger] prefix_at(t@, i as int, quoted(s)) by {
            if prefix_at(t@, i as int, quoted(s)) {
                lemma_quoted_at(t@, i as int, s, out@.len() as int);
                if out@.len() == s.len() {
                    assert(s.take(out@.len() as int) =~= s);
                }
            }
        }
    }
    None
}

/// Whether `escape_char` writes `c` with a backslash.
fn needs_escape_exec(c: char) -> (r: bool)
    ensures
        r == needs_escape(c),
{
    c == '"' || c == '\\' || (c as u32) < 32
}

} // verus!

verus! {

/// The text that opens a record and names its file.
pub open spec fn key_file_path() -> Seq<char> {
    seq!['{', '"', 'f', 'i', 'l', 'e', '_', 'p', 'a', 't', 'h', '"', ':']
}

/// The text that names a record's deadline.
pub open spec fn key_delete_at() -> Seq<char> {
    seq![',', '"', 'd', 'e', 'l', 'e', 't', 'e', '_', 'a', 't', '"', ':']
}

/// The text that names a record's creation time.
pub open spec fn key_created_at() -> Seq<char> {
    seq![',', '"', 'c', 'r', 'e', 'a', 't', 'e', 'd', '_', 'a', 't', '"', ':']
}

/// The text that names a record's status.
pub open spec fn key_status() -> Seq<char> {
    seq![',', '"', 's', 't', 'a', 't', 'u', 's', '"', ':']
}

/// The name under which a status is written.
pub open spec fn status_tag(st: TaskStatus) -> Seq<char> {
    match st {
        TaskStatus::Pending => seq!['P', 'e', 'n', 'd', 'i', 'n', 'g'],
        TaskStatus::Completed => seq!['C', 'o', 'm', 'p', 'l', 'e', 't', 'e', 'd'],
        TaskStatus::Expired => seq!['E', 'x', 'p', 'i', 'r', 'e', 'd'],
        TaskStatus::Cancelled => seq!['C', 'a', 'n', 'c', 'e', 'l', 'l', 'e', 'd'],
        TaskStatus::Failed => seq!['F', 'a', 'i', 'l', 'e', 'd'],
    }
}

/// One member of a record: its key, then its value as a string literal.
pub open spec fn field_text(key: Seq<char>, value: Seq<char>) -> Seq<char> {
    key + quoted(value)
}

/// A record as one JSON object, its members in a fixed order.
pub open spec fn record_text(r: RecordView) -> Seq<char> {
    field_text(key_file_path(), r.file_path) + field_text(key_delete_at(), r.delete_at)
        + field_text(key_created_at(), r.created_at) + field_text(
        key_status(),
        status_tag(r.status),
    ) + seq!['}']
}

/// Each record preceded by a comma.
pub open spec fn commas(rs: Seq<RecordView>) -> Seq<char>
    decreases rs.len(),
{
    if rs.len() == 0 {
        Seq::empty()
    } else {
        commas(rs.drop_last()) + seq![','] + record_text(rs.last())
    }
}

/// The records separated by commas.
pub open spec fn joined(rs: Seq<RecordView>) -> Seq<char> {
    if rs.len() == 0 {
        Seq::empty()
    } else {
        record_text(rs[0]) + commas(rs.skip(1))
    }
}

/// The whole document: a JSON array of the records, without white space.
pub open spec fn document_text(rs: Seq<RecordView>) -> Seq<char> {
    seq!['['] + joined(rs) + seq![']']
}

proof fn lemma_commas_concat(a: Seq<RecordView>, b: Seq<RecordView>)
    ensures
        commas(a + b) == commas(a) + commas(b),
    decreases b.len(),
{
    if b.len() == 0 {
        assert(a + b =~= a);
        assert(commas(a) + commas(b) =~= commas(a));
    } else {
        lemma_commas_concat(a, b.drop_last());
        assert((a + b).drop_last() =~= a + b.drop_last());
        assert(commas(a) + commas(b) =~= commas(a) + commas(b.drop_last()) + seq![','] + record_text(
            b.last(),
        ));
    }
}

proof fn lemma_joined_push(rs: Seq<RecordView>, m: int)
    requires
        0 <= m < rs.len(),
    ensures
        m == 0 ==> joined(rs.take(m + 1)) == record_text(rs[m]),
        m > 0 ==> joined(rs.take(m + 1)) == joined(rs.take(m)) + seq![','] + record_text(rs[m]),
{
    if m == 0 {
        assert(rs.take(1).skip(1) =~= Seq::<RecordView>::empty());
        assert(joined(rs.take(1)) =~= record_text(rs[0]));
    } else {
        assert(rs.take(m + 1).skip(1).drop_last() =~= rs.take(m).skip(1));
        assert(joined(rs.take(m + 1)) =~= joined(rs.take(m)) + seq![','] + record_text(rs[m]));
    }
}

/// Where `document_text(rs)` is `t`, the text after the first `m` records
/// is either a comma and the next record, or the closing bracket at the end.
#[verifier::rlimit(60)]
#[verifier::spinoff_prover]
proof fn lemma_document_at(t: Seq<char>, rs: Seq<RecordView>, m: int)
    requires
        t == document_text(rs),
        1 <= m <= rs.len(),
    ensures
        ({
            let p = 1 + joined(rs.take(m)).len() as int;
            &&& t.subrange(0, p) == seq!['['] + joined(rs.take(m))
            &&& m < rs.len() ==> prefix_at(t, p, seq![','] + record_text(rs[m]))
            &&& m == rs.len() ==> p + 1 == t.len() && t[p] == ']'
        }),
{
    let head = rs.take(m);
    let tail = rs.skip(m);
    assert(rs.skip(1) =~= head.skip(1) + tail);
    lemma_commas_concat(head.skip(1), tail);
    assert(joined(rs) =~= joined(head) + commas(tail));
    let p = 1 + joined(head).len() as int;
    assert(prefix_at(t, 0, t)) by {
        assert(t.subrange(0, t.len() as int) =~= t);
    }
    assert(t =~= seq!['['] + joined(head) + commas(tail) + seq![']']);
    lemma_prefix_concat(t, 0, seq!['['] + joined(head) + commas(tail), seq![']']);
    lemma_prefix_concat(t, 0, seq!['['] + joined(head), commas(tail));
    if m < rs.len() {
        assert(tail =~= seq![rs[m]] + rs.skip(m + 1));
        lemma_commas_concat(seq![rs[m]], rs.skip(m + 1));
        assert(seq![rs[m]].drop_last() =~= Seq::<RecordView>::empty());
        assert(commas(Seq::<RecordView>::empty()) == Seq::<char>::empty());
        assert(seq![rs[m]].last() == rs[m]);
        assert(commas(seq![rs[m]]) =~= seq![','] + record_text(rs[m]));
        lemma_prefix_concat(t, p, seq![','] + record_text(rs[m]), commas(rs.skip(m + 1)));
    } else {
        assert(tail =~= Seq::<RecordView>::empty());
        assert(t[p] == t.subrange(p, p + 1)[0]);
    }
}

/// Appends the characters of `cs` to `out`.
fn push_chars(out: &mut String, cs: &Vec<char>)
    ensures
        final(out)@ == old(out)@ + cs@,
{
    let mut k: usize = 0;
    while k < cs.len()
        invariant
            k <= cs@.len(),
            out@ == old(out)@ + cs@.take(k as int),
        decreases cs@.len() - k,
    {
        push_char(out, cs[k]);
        k = k + 1;
        assert(out@ =~= old(out)@ + cs@.take(k as int));
    }
    assert(cs@.take(cs@.len() as int) =~= cs@);
}

/// The characters of `cs` as a string.
fn string_of(cs: &Vec<char>) -> (r: String)
    ensures
        r@ == cs@,
{
    let mut r = String::new();
    push_chars(&mut r, cs);
    assert(r@ =~= cs@);
    r
}

/// Whether `x` stands in `t` from position `i` on.
fn has_at(t: &Vec<char>, i: usize, x: &Vec<char>) -> (r: bool)
    requires
        i <= t@.len(),
    ensures
        r == prefix_at(t@, i as int, x@),
{
    if x.len() > t.len() - i {
        return false;
    }
    let mut k: usize = 0;
    while k < x.len()
        invariant
            k <= x@.len(),
            i + x@.len() <= t@.len(),
            t@.len() <= usize::MAX,
            forall|j: int| 0 <= j < k ==> t@[i + j] == x@[j],
        decreases x@.len() - k,
    {
        if t[i + k] != x[k] {
            proof {
                assert(t@.subrange(i as int, i + x@.len())[k as int] != x@[k as int]);
            }
            return false;
        }
        k = k + 1;
    }
    assert(t@.subrange(i as int, i + x@.len()) =~= x@);
    true
}

/// The characters of `key_file_path()`.
fn key_file_path_chars() -> (r: Vec<char>)
    ensures
        r@ == key_file_path(),
{
    let r = vec!['{', '"', 'f', 'i', 'l', 'e', '_', 'p', 'a', 't', 'h', '"', ':'];
    assert(r@ =~= key_file_path());
    r
}

/// The characters of `key_delete_at()`.
fn key_delete_at_chars() -> (r: Vec<char>)
    ensures
        r@ == key_delete_at(),
{
    let r = vec![',', '"', 'd', 'e', 'l', 'e', 't', 'e', '_', 'a', 't', '"', ':'];
    assert(r@ =~= key_delete_at());
    r
}

/// The characters of `key_created_at()`.
fn key_created_at_chars() -> (r: Vec<char>)
    ensures
        r@ == key_created_at(),
{
    let r = vec![',', '"', 'c', 'r', 'e', 'a', 't', 'e', 'd', '_', 'a', 't', '"', ':'];
    assert(r@ =~= key_created_at());
    r
}

/// The characters of `key_status()`.
fn key_status_chars() -> (r: Vec<char>)
    ensures
        r@ == key_status(),
{
    let r = vec![',', '"', 's', 't', 'a', 't', 'u', 's', '"', ':'];
    assert(r@ =~= key_status());
    r
}

/// The name under which `st` is written.
pub fn status_tag_chars(st: TaskStatus) -> (r: Vec<char>)
    ensures
        r@ == status_tag(st),
{
    let r = match st {
        TaskStatus::Pending => vec!['P', 'e', 'n', 'd', 'i', 'n', 'g'],
        TaskStatus::Completed => vec!['C', 'o', 'm', 'p', 'l', 'e', 't', 'e', 'd'],
        TaskStatus::Expired => vec!['E', 'x', 'p', 'i', 'r', 'e', 'd'],
        TaskStatus::Cancelled => vec!['C', 'a', 'n', 'c', 'e', 'l', 'l', 'e', 'd'],
        TaskStatus::Failed => vec!['F', 'a', 'i', 'l', 'e', 'd'],
    };
    assert(r@ =~= status_tag(st));
    r
}

/// The status written under the name `tag`, if any.
pub fn status_from_tag(tag: &Vec<char>) -> (r: Option<TaskStatus>)
    ensures
        r matches Some(st) ==> status_tag(st) == tag@,
        forall|st: TaskStatus| #[trigger] status_tag(st) == tag@ ==> r == Some(st),
{
    let all = [
        TaskStatus::Pending,
        TaskStatus::Completed,
        TaskStatus::Expired,
        TaskStatus::Cancelled,
        TaskStatus::Failed,
    ];
    let mut k: usize = 0;
    while k < 5
        invariant
            k <= 5,
            all@ == seq![
                TaskStatus::Pending,
                TaskStatus::Completed,
                TaskStatus::Expired,
                TaskStatus::Cancelled,
                TaskStatus::Failed,
            ],
            forall|j: int| 0 <= j < k ==> status_tag(#[trigger] all@[j]) != tag@,
        decreases 5 - k,
    {
        let name = status_tag_chars(all[k]);
        if tag.len() == name.len() && has_at(tag, 0, &name) {
            proof {
                assert(tag@.subrange(0, name@.len() as int) =~= tag@);
                assert forall|st: TaskStatus| #[trigger] status_tag(st) == tag@ implies st == all@[k as int] by {
                    assert(status_tag(st)[0] == tag@[0]);
                    assert(status_tag(st)[1] == tag@[1]);
                }
            }
            return Some(all[k]);
        }
        proof {
            if name@ == tag@ {
                assert(tag@.subrange(0, tag@.len() as int) =~= tag@);
            }
        }
        k = k + 1;
    }
    proof {
        assert forall|st: TaskStatus| #[trigger] status_tag(st) != tag@ by {
            if status_tag(st) == tag@ {
                assert(status_tag(all@[0]) != tag@);
                assert(status_tag(all@[1]) != tag@);
                assert(status_tag(all@[2]) != tag@);
                assert(status_tag(all@[3]) != tag@);
                assert(status_tag(all@[4]) != tag@);
            }
        }
    }
    None
}

} // verus!

verus! {

/// Reads a member with key `key` at position `i`. Where some
/// `field_text(key, s)` stands at `i`, the result is `s`.
fn parse_field(t: &Vec<char>, i: usize, key: &Vec<char>) -> (r: Option<(Vec<char>, usize)>)
    requires
        i <= t@.len(),
    ensures
        r matches Some((s, j)) ==> j == i + field_text(key@, s@).len() && prefix_at(
            t@,
            i as int,
            field_text(key@, s@),
        ),
        forall|s: Seq<char>| #[trigger]
            prefix_at(t@, i as int, field_text(key@, s)) ==> (r matches Some((s2, j)) && s2@ == s),
{
    if !has_at(t, i, key) {
        proof {
            assert forall|s: Seq<char>| !#[trigger] prefix_at(t@, i as int, field_text(key@, s)) by {
                lemma_prefix_concat(t@, i as int, key@, quoted(s));
            }
        }
        return None;
    }
    let n = t.len();
    assert(i + key@.len() <= n);
    let p = i + key.len();
    proof {
        assert forall|s: Seq<char>| #[trigger] prefix_at(t@, i as int, field_text(key@, s)) implies prefix_at(
            t@,
            p as int,
            quoted(s),
        ) by {
            lemma_prefix_concat(t@, i as int, key@, quoted(s));
        }
    }
    match parse_quoted(t, p) {
        Some((s, j)) => {
            proof {
                lemma_prefix_concat(t@, i as int, key@, quoted(s@));
            }
            Some((s, j))
        },
        None => None,
    }
}

/// Appends `record_text(r@)` to `out`.
fn push_record(out: &mut String, r: &Record)
    ensures
        final(out)@ == old(out)@ + record_text(r@),
{
    push_chars(out, &key_file_path_chars());
    push_quoted(out, r.file_path.as_str());
    push_chars(out, &key_delete_at_chars());
    push_quoted(out, r.delete_at.as_str());
    push_chars(out, &key_created_at_chars());
    push_quoted(out, r.created_at.as_str());
    push_chars(out, &key_status_chars());
    let tag = string_of(&status_tag_chars(r.status));
    push_quoted(out, tag.as_str());
    push_char(out, '}');
    assert(final(out)@ =~= old(out)@ + record_text(r@));
}

/// Reads the record at position `i`. Where some `record_text(rv)` stands
/// at `i`, the result is `rv`.
fn parse_record(t: &Vec<char>, i: usize) -> (r: Option<(Record, usize)>)
    requires
        i <= t@.len(),
    ensures
        r matches Some((rec, j)) ==> j == i + record_text(rec@).len() && prefix_at(
            t@,
            i as int,
            record_text(rec@),
        ),
        forall|rv: RecordView| #[trigger]
            prefix_at(t@, i as int, record_text(rv)) ==> (r matches Some((rec, j)) && rec@ == rv),
{
    let ghost tv = t@;
    let ghost ii = i as int;
    // The pieces of a record's text, as prefixes at their positions.
    proof {
        assert forall|rv: RecordView| #[trigger] prefix_at(tv, ii, record_text(rv)) implies {
            let f1 = field_text(key_file_path(), rv.file_path);
            let f2 = field_text(key_delete_at(), rv.delete_at);
            let f3 = field_text(key_created_at(), rv.created_at);
            let f4 = field_text(key_status(), status_tag(rv.status));
            &&& prefix_at(tv, ii, f1)
            &&& prefix_at(tv, ii + f1.len(), f2)
            &&& prefix_at(tv, ii + f1.len() + f2.len(), f3)
            &&& prefix_at(tv, ii + f1.len() + f2.len() + f3.len(), f4)
            &&& prefix_at(tv, ii + f1.len() + f2.len() + f3.len() + f4.len(), seq!['}'])
        } by {
            let f1 = field_text(key_file_path(), rv.file_path);
            let f2 = field_text(key_delete_at(), rv.delete_at);
            let f3 = field_text(key_created_at(), rv.created_at);
            let f4 = field_text(key_status(), status_tag(rv.status));
            lemma_prefix_concat(tv, ii, f1 + f2 + f3 + f4, seq!['}']);
            lemma_prefix_concat(tv, ii, f1 + f2 + f3, f4);
            lemma_prefix_concat(tv, ii, f1 + f2, f3);
            lemma_prefix_concat(tv, ii, f1, f2);
        }
    }
    let (path, j1) = match parse_field(t, i, &key_file_path_chars()) {
        Some(x) => x,
        None => {
            return None;
        },
    };
    let (deadline, j2) = match parse_field(t, j1, &key_delete_at_chars()) {
        Some(x) => x,
        None => {
            return None;
        },
    };
    let (created, j3) = match parse_field(t, j2, &key_created_at_chars()) {
        Some(x) => x,
        None => {
            return None;
        },
    };
    let (tag, j4) = match parse_field(t, j3, &key_status_chars()) {
        Some(x) => x,
        None => {
            return None;
        },
    };
    let status = match status_from_tag(&tag) {
        Some(st) => st,
        None => {
            return None;
        },
    };
    if j4 >= t.len() || t[j4] != '}' {
        proof {
            assert forall|rv: RecordView| !#[trigger] prefix_at(tv, ii, record_text(rv)) by {
                if prefix_at(tv, ii, record_text(rv)) {
                    let f1 = field_text(key_file_path(), rv.file_path);
                    let f2 = field_text(key_delete_at(), rv.delete_at);
                    let f3 = field_text(key_created_at(), rv.created_at);
                    let f4 = field_text(key_status(), status_tag(rv.status));
                    let q = ii + f1.len() + f2.len() + f3.len() + f4.len();
                    assert(tv[q] == tv.subrange(q, q + 1)[0]);
                }
            }
        }
        return None;
    }
    let rec = Record {
        file_path: string_of(&path),
        delete_at: string_of(&deadline),
        created_at: string_of(&created),
        status,
    };
    proof {
        let f1 = field_text(key_file_path(), path@);
        let f2 = field_text(key_delete_at(), deadline@);
        let f3 = field_text(key_created_at(), created@);
        let f4 = field_text(key_status(), status_tag(status));
        assert(tv.subrange(j4 as int, j4 + 1) =~= seq!['}']);
        lemma_prefix_concat(tv, ii, f1, f2);
        lemma_prefix_concat(tv, ii, f1 + f2, f3);
        lemma_prefix_concat(tv, ii, f1 + f2 + f3, f4);
        lemma_prefix_concat(tv, ii, f1 + f2 + f3 + f4, seq!['}']);
        assert(record_text(rec@) == f1 + f2 + f3 + f4 + seq!['}']);
    }
    Some((rec, j4 + 1))
}

/// The document that holds `records`, in their order.
pub fn encode_document(records: &Vec<Record>) -> (r: String)
    ensures
        r@ == document_text(records_view(records@)),
{
    let ghost rs = records_view(records@);
    let mut out = String::new();
    push_char(&mut out, '[');
    let mut k: usize = 0;
    while k < records.len()
        invariant
            k <= records@.len(),
            rs == records_view(records@),
            out@ == seq!['['] + joined(rs.take(k as int)),
        decreases records@.len() - k,
    {
        proof {
            lemma_joined_push(rs, k as int);
        }
        if k > 0 {
            push_char(&mut out, ',');
        }
        push_record(&mut out, &records[k]);
        k = k + 1;
        assert(out@ =~= seq!['['] + joined(rs.take(k as int)));
    }
    push_char(&mut out, ']');
    assert(rs.take(rs.len() as int) =~= rs);
    assert(out@ =~= document_text(rs));
    out
}

/// Reads a document laid out exactly as `encode_document` writes it. The
/// result is `Some` exactly when `text` is the document of some records,
/// and then holds those records; any other text gives `None`.
#[verifier::rlimit(100)]
#[verifier::spinoff_prover]
fn decode_exact(text: &str) -> (r: Option<Vec<Record>>)
    ensures
        r matches Some(v) ==> document_text(records_view(v@)) == text@,
        forall|rs: Seq<RecordView>| #[trigger]
            document_text(rs) == text@ ==> (r matches Some(v) && records_view(v@) == rs),
{
    let t = chars_of(text);
    let ghost tv = t@;
    let open = vec!['['];
    assert(open@ =~= seq!['[']);
    if !has_at(&t, 0, &open) {
        proof {
            assert forall|rs: Seq<RecordView>| #[trigger] document_text(rs) != text@ by {
                if document_text(rs) == text@ {
                    assert(tv.subrange(0, 1) =~= seq!['[']);
                }
            }
        }
        return None;
    }
    if t.len() == 2 && t[1] == ']' {
        let v: Vec<Record> = Vec::new();
        proof {
            assert(tv =~= seq!['[', ']']);
            assert(document_text(records_view(v@)) =~= tv);
            assert forall|rs: Seq<RecordView>| #[trigger] document_text(rs) == text@ implies records_view(
                v@,
            ) == rs by {
                if rs.len() > 0 {
                    assert(document_text(rs).len() > 2);
                }
                assert(records_view(v@) =~= rs);
            }
        }
        return Some(v);
    }
    let (first, p0) = match parse_record(&t, 1) {
        Some(x) => x,
        None => {
            proof {
                assert forall|rs: Seq<RecordView>| #[trigger] document_text(rs) != text@ by {
                    if document_text(rs) == text@ {
                        if rs.len() == 0 {
                            assert(tv =~= seq!['[', ']']);
                        } else {
                            lemma_document_at(tv, rs, 1);
                            lemma_joined_push(rs, 0);
                            assert(rs.take(1).len() == 1);
                            lemma_prefix_concat(tv, 0, seq!['['], record_text(rs[0]));
                            assert(tv.subrange(0, 1 + record_text(rs[0]).len() as int) == seq!['['] + record_text(rs[0]));
                            assert(prefix_at(tv, 0, seq!['['] + record_text(rs[0])));
                        }
                    }
                }
            }
            return None;
        },
    };
    let mut out: Vec<Record> = Vec::new();
    out.push(first);
    let mut k: usize = p0;
    proof {
        assert(records_view(out@) =~= seq![first@]);
        lemma_joined_push(records_view(out@), 0);
        assert(records_view(out@).take(1) =~= records_view(out@));
        assert(tv.subrange(0, 1) =~= seq!['[']);
        lemma_prefix_concat(tv, 0, seq!['['], record_text(first@));
        assert forall|rs: Seq<RecordView>| #[trigger] document_text(rs) == text@ implies rs.len() >= 1
            && records_view(out@) == rs.take(1) by {
            if rs.len() == 0 {
                assert(tv =~= seq!['[', ']']);
            }
            lemma_document_at(tv, rs, 1);
            lemma_joined_push(rs, 0);
            lemma_prefix_concat(tv, 0, seq!['['], record_text(rs[0]));
            assert(rs.take(1) =~= seq![rs[0]]);
        }
    }
    while k < t.len() && t[k] == ','
        invariant
            tv == t@,
            tv == text@,
            out@.len() >= 1,
            k == 1 + joined(records_view(out@)).len(),
            k <= tv.len(),
            tv.subrange(0, k as int) == seq!['['] + joined(records_view(out@)),
            forall|rs: Seq<RecordView>| #[trigger]
                document_text(rs) == text@ ==> rs.len() >= out@.len() && records_view(out@)
                    == rs.take(out@.len() as int),
        decreases tv.len() - k,
    {
        let ghost prev = records_view(out@);
        let ghost m = out@.len() as int;
        let (rec, p) = match parse_record(&t, k + 1) {
            Some(x) => x,
            None => {
                proof {
                    assert forall|rs: Seq<RecordView>| #[trigger] document_text(rs) != text@ by {
                        if document_text(rs) == text@ {
                            assert(prev.take(m) =~= prev);
                            lemma_document_at(tv, rs, m);
                            if m < rs.len() {
                                lemma_prefix_concat(tv, k as int, seq![','], record_text(rs[m]));
                            }
                        }
                    }
                }
                return None;
            },
        };
        out.push(rec);
        proof {
            assert(records_view(out@) =~= prev.push(rec@));
            lemma_joined_push(records_view(out@), m);
            assert(records_view(out@).take(m) =~= prev);
            assert(records_view(out@).take(m + 1) =~= records_view(out@));
            assert(tv.subrange(0, p as int) =~= tv.subrange(0, k as int) + seq![','] + record_text(rec@));
            assert forall|rs: Seq<RecordView>| #[trigger] document_text(rs) == text@ implies rs.len()
                >= out@.len() && records_view(out@) == rs.take(out@.len() as int) by {
                assert(prev.take(m) =~= prev);
                lemma_document_at(tv, rs, m);
                if m == rs.len() {
                    assert(tv[k as int] == ']');
                } else {
                    lemma_prefix_concat(tv, k as int, seq![','], record_text(rs[m]));
                    assert(rs.take(m + 1) =~= rs.take(m).push(rs[m]));
                }
            }
        }
        k = p;
    }
    if k >= t.len() || k + 1 != t.len() || t[k] != ']' {
        proof {
            assert forall|rs: Seq<RecordView>| #[trigger] document_text(rs) != text@ by {
                if document_text(rs) == text@ {
                    let m = out@.len() as int;
                    assert(records_view(out@).take(m) =~= records_view(out@));
                    lemma_document_at(tv, rs, m);
                    if m < rs.len() {
                        lemma_prefix_concat(tv, k as int, seq![','], record_text(rs[m]));
                        assert(tv[k as int] == tv.subrange(k as int, k + 1)[0]);
                    }
                }
            }
        }
        return None;
    }
    proof {
        assert(tv =~= tv.subrange(0, k as int) + seq![']']);
        assert(document_text(records_view(out@)) =~= tv);
        assert forall|rs: Seq<RecordView>| #[trigger] document_text(rs) == text@ implies records_view(out@)
            == rs by {
            let m = out@.len() as int;
            assert(records_view(out@).take(m) =~= records_view(out@));
            lemma_document_at(tv, rs, m);
            if m < rs.len() {
                lemma_prefix_concat(tv, k as int, seq![','], record_text(rs[m]));
                assert(tv[k as int] == tv.subrange(k as int, k + 1)[0]);
            }
            assert(rs.take(m) =~= rs);
        }
    }
    Some(out)
}

} // verus!

verus! {

/// JSON's white space between tokens.
pub open spec fn is_json_space(c: char) -> bool {
    c == ' ' || c == '\t' || c == '\n' || c == '\r'
}

/// What a left-to-right scan of `t` keeps, and whether it ends inside a
/// string literal and right after a backslash there.
pub open spec fn compact_state(t: Seq<char>) -> (Seq<char>, bool, bool)
    decreases t.len(),
{
    if t.len() == 0 {
        (Seq::empty(), false, false)
    } else {
        let (out, in_string, after_backslash) = compact_state(t.drop_last());
        let c = t.last();
        if in_string {
            if after_backslash {
                (out.push(c), true, false)
            } else if c == '\\' {
                (out.push(c), true, true)
            } else {
                (out.push(c), c != '"', false)
            }
        } else if is_json_space(c) {
            (out, false, false)
        } else {
            (out.push(c), c == '"', false)
        }
    }
}

/// `t` without its white space outside string literals.
pub open spec fn compact(t: Seq<char>) -> Seq<char> {
    compact_state(t).0
}

/// `t` without its white space outside string literals.
fn compact_chars(t: &Vec<char>) -> (r: Vec<char>)
    ensures
        r@ == compact(t@),
{
    let mut out: Vec<char> = Vec::new();
    let mut in_string = false;
    let mut after_backslash = false;
    let mut k: usize = 0;
    while k < t.len()
        invariant
            k <= t@.len(),
            (out@, in_string, after_backslash) == compact_state(t@.take(k as int)),
        decreases t@.len() - k,
    {
        let c = t[k];
        proof {
            assert(t@.take(k as int + 1).drop_last() =~= t@.take(k as int));
            assert(t@.take(k as int + 1).last() == c);
        }
        if in_string {
            if after_backslash {
                out.push(c);
                after_backslash = false;
            } else if c == '\\' {
                out.push(c);
                after_backslash = true;
            } else {
                out.push(c);
                in_string = c != '"';
            }
        } else if c == ' ' || c == '\t' || c == '\n' || c == '\r' {
        } else {
            out.push(c);
            in_string = c == '"';
        }
        k = k + 1;
    }
    assert(t@.take(t@.len() as int) =~= t@);
    out
}

/// `text` holds the records `rs`: it is their document, or it is the
/// document of no records and becomes theirs once the white space outside
/// string literals is removed.
pub open spec fn holds_records(text: Seq<char>, rs: Seq<RecordView>) -> bool {
    document_text(rs) == text || ((forall|rs2: Seq<RecordView>| #[trigger] document_text(rs2)
        != text) && document_text(rs) == compact(text))
}

/// Reads a task document: a JSON array of objects as `encode_document`
/// writes them, with any JSON white space between tokens. The result is
/// `Some` exactly when `text` holds some records, and then holds those
/// records; any other text gives `None`.
pub fn decode_document(text: &str) -> (r: Option<Vec<Record>>)
    ensures
        r matches Some(v) ==> holds_records(text@, records_view(v@)),
        forall|rs: Seq<RecordView>| #[trigger]
            holds_records(text@, rs) ==> (r matches Some(v) && records_view(v@) == rs),
{
    match decode_exact(text) {
        Some(v) => Some(v),
        None => {
            let squeezed = string_of(&compact_chars(&chars_of(text)));
            decode_exact(squeezed.as_str())
        },
    }
}

} // verus!
