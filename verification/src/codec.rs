//! The on-disk format of the record collection: a JSON array of flat objects
//! with the fields id, title, author, genre, rating and status. The encoder
//! and the parser are written against one spec-level grammar, and decoding an
//! encoded collection is proved to give the records back unchanged.
use vstd::prelude::*;

use crate::app::Book;
use crate::app::BookView;
use crate::app::views;

verus! {

/// The numeric value of a decimal digit character.
pub open spec fn digit_of(c: char) -> Option<int> {
    match c {
        '0' => Some(0),
        '1' => Some(1),
        '2' => Some(2),
        '3' => Some(3),
        '4' => Some(4),
        '5' => Some(5),
        '6' => Some(6),
        '7' => Some(7),
        '8' => Some(8),
        '9' => Some(9),
        _ => None,
    }
}

pub open spec fn is_digit(c: char) -> bool {
    digit_of(c) is Some
}

/// The character for a decimal digit value.
pub open spec fn digit_char(d: int) -> char {
    if d == 0 {
        '0'
    } else if d == 1 {
        '1'
    } else if d == 2 {
        '2'
    } else if d == 3 {
        '3'
    } else if d == 4 {
        '4'
    } else if d == 5 {
        '5'
    } else if d == 6 {
        '6'
    } else if d == 7 {
        '7'
    } else if d == 8 {
        '8'
    } else {
        '9'
    }
}

/// The decimal digits of a non-negative number, most significant first.
pub open spec fn digits_of(n: int) -> Seq<char>
    decreases n,
{
    if n <= 9 {
        seq![digit_char(n)]
    } else {
        digits_of(n / 10).push(digit_char(n % 10))
    }
}

/// How one character is written inside a JSON string: quote, backslash,
/// newline, carriage return and tab take a two-character escape, every
/// other character stands for itself.
pub open spec fn esc_char(c: char) -> Seq<char> {
    if c == '"' {
        seq!['\\', '"']
    } else if c == '\\' {
        seq!['\\', '\\']
    } else if c == '\n' {
        seq!['\\', 'n']
    } else if c == '\r' {
        seq!['\\', 'r']
    } else if c == '\t' {
        seq!['\\', 't']
    } else {
        seq![c]
    }
}

/// A whole text written inside a JSON string.
pub open spec fn esc(s: Seq<char>) -> Seq<char>
    decreases s.len(),
{
    if s.len() == 0 {
        Seq::empty()
    } else {
        esc_char(s[0]) + esc(s.skip(1))
    }
}

/// The character a two-character escape stands for.
pub open spec fn unesc_code(c: char) -> Option<char> {
    match c {
        '"' => Some('"'),
        '\\' => Some('\\'),
        'n' => Some('\n'),
        'r' => Some('\r'),
        't' => Some('\t'),
        _ => None,
    }
}

/// The rating written as a decimal number with one fractional digit,
/// from its count of tenths.
pub open spec fn enc_rating(tenths: int) -> Seq<char> {
    digits_of(tenths / 10) + seq!['.'] + seq![digit_char(tenths % 10)]
}

/// A text written as a JSON string up to and including its closing quote
/// (the opening quote belongs to the preceding literal).
pub open spec fn enc_str(t: Seq<char>) -> Seq<char> {
    esc(t) + seq!['"']
}

/// One record written as a JSON object.
pub open spec fn enc_book(b: BookView) -> Seq<char> {
    "{\"id\":"@ + digits_of(b.id) + ",\"title\":\""@ + enc_str(b.title) + ",\"author\":\""@
        + enc_str(b.author) + ",\"genre\":\""@ + enc_str(b.genre) + ",\"rating\":"@
        + enc_rating(b.rating_tenths) + ",\"status\":\""@ + enc_str(b.status) + "}"@
}

/// The second and later records, each preceded by a comma.
pub open spec fn enc_tail(bs: Seq<BookView>) -> Seq<char>
    decreases bs.len(),
{
    if bs.len() == 0 {
        Seq::empty()
    } else {
        seq![','] + enc_book(bs[0]) + enc_tail(bs.skip(1))
    }
}

/// The whole collection written as a JSON array.
pub open spec fn enc_books(bs: Seq<BookView>) -> Seq<char> {
    if bs.len() == 0 {
        seq!['['] + seq![']']
    } else {
        seq!['['] + enc_book(bs[0]) + enc_tail(bs.skip(1)) + seq![']']
    }
}

/// Relies on String::push: appends one character at the end of the string.
#[verifier::external_body]
pub(crate) fn push_char(s: &mut String, c: char)
    ensures
        final(s)@ == old(s)@.push(c),
{
    s.push(c);
}

/// The string without its last character (an empty string stays empty).
pub(crate) fn drop_last_char(s: &String) -> (r: String)
    ensures
        r@ == if s@.len() == 0 {
            s@
        } else {
            s@.drop_last()
        },
{
    let mut v = chars_of_str(s.as_str());
    if v.len() > 0 {
        v.pop();
    }
    let r = string_of_chars(&v);
    proof {
        if s@.len() == 0 {
            assert(r@ =~= s@);
        } else {
            assert(r@ =~= s@.drop_last());
        }
    }
    r
}

/// The characters of a string slice, in order.
#[verifier::loop_isolation(false)]
pub fn chars_of_str(s: &str) -> (r: Vec<char>)
    ensures
        r@ == s@,
{
    let n = s.unicode_len();
    let mut r: Vec<char> = Vec::new();
    let mut i: usize = 0;
    while i < n
        invariant
            i <= n,
            r@ == s@.take(i as int),
        decreases n - i,
    {
        let c = s.get_char(i);
        r.push(c);
        proof {
            assert(r@ =~= s@.take(i as int + 1));
        }
        i += 1;
    }
    proof {
        assert(s@.take(n as int) =~= s@);
    }
    r
}

/// A string holding the given characters, in order.
#[verifier::loop_isolation(false)]
pub fn string_of_chars(v: &Vec<char>) -> (r: String)
    ensures
        r@ == v@,
{
    let mut r = String::new();
    let mut i: usize = 0;
    while i < v.len()
        invariant
            i <= v.len(),
            r@ == v@.take(i as int),
        decreases v.len() - i,
    {
        push_char(&mut r, v[i]);
        proof {
            assert(r@ =~= v@.take(i as int + 1));
        }
        i += 1;
    }
    proof {
        assert(v@.take(v.len() as int) =~= v@);
    }
    r
}

/// Escaping distributes over concatenation.
proof fn lemma_esc_append(a: Seq<char>, b: Seq<char>)
    ensures
        esc(a + b) == esc(a) + esc(b),
    decreases a.len(),
{
    if a.len() == 0 {
        assert(a + b =~= b);
        assert(esc(a) + esc(b) =~= esc(b));
    } else {
        assert((a + b).len() > 0);
        assert((a + b)[0] == a[0]);
        assert((a + b).skip(1) =~= a.skip(1) + b);
        lemma_esc_append(a.skip(1), b);
        assert(esc_char(a[0]) + (esc(a.skip(1)) + esc(b)) =~= (esc_char(a[0]) + esc(a.skip(1))) + esc(b));
    }
}

proof fn lemma_esc_one(c: char)
    ensures
        esc(seq![c]) == esc_char(c),
{
    assert(seq![c].skip(1) =~= Seq::<char>::empty());
    assert(esc_char(c) + esc(seq![c].skip(1)) =~= esc_char(c));
}

/// Append the digits of `n` to `out`.
fn push_digits(out: &mut Vec<char>, n: u64)
    ensures
        final(out)@ == old(out)@ + digits_of(n as int),
    decreases n,
{
    if n <= 9 {
        let c = digit_char_of(n);
        out.push(c);
        proof {
            assert(out@ =~= old(out)@ + digits_of(n as int));
        }
    } else {
        push_digits(out, n / 10);
        let c = digit_char_of(n % 10);
        out.push(c);
        proof {
            assert(out@ =~= old(out)@ + digits_of(n as int));
        }
    }
}

/// The character for one digit.
fn digit_char_of(d: u64) -> (c: char)
    requires
        d <= 9,
    ensures
        c == digit_char(d as int),
{
    if d == 0 {
        '0'
    } else if d == 1 {
        '1'
    } else if d == 2 {
        '2'
    } else if d == 3 {
        '3'
    } else if d == 4 {
        '4'
    } else if d == 5 {
        '5'
    } else if d == 6 {
        '6'
    } else if d == 7 {
        '7'
    } else if d == 8 {
        '8'
    } else {
        '9'
    }
}

/// Append one character in its escaped form.
fn push_esc_char(out: &mut Vec<char>, c: char)
    ensures
        final(out)@ == old(out)@ + esc_char(c),
{
    if c == '"' {
        out.push('\\');
        out.push('"');
    } else if c == '\\' {
        out.push('\\');
        out.push('\\');
    } else if c == '\n' {
        out.push('\\');
        out.push('n');
    } else if c == '\r' {
        out.push('\\');
        out.push('r');
    } else if c == '\t' {
        out.push('\\');
        out.push('t');
    } else {
        out.push(c);
    }
    proof {
        assert(out@ =~= old(out)@ + esc_char(c));
    }
}

/// Append the escaped form of a whole text.
#[verifier::loop_isolation(false)]
fn push_esc(out: &mut Vec<char>, s: &str)
    ensures
        final(out)@ == old(out)@ + esc(s@),
{
    let n = s.unicode_len();
    let mut i: usize = 0;
    while i < n
        invariant
            i <= n,
            out@ == old(out)@ + esc(s@.take(i as int)),
        decreases n - i,
    {
        let c = s.get_char(i);
        push_esc_char(out, c);
        proof {
            assert(s@.take(i as int).push(s@[i as int]) =~= s@.take(i as int + 1));
            assert(s@.take(i as int + 1) =~= s@.take(i as int) + seq![s@[i as int]]);
            lemma_esc_append(s@.take(i as int), seq![s@[i as int]]);
            lemma_esc_one(s@[i as int]);
            assert(out@ =~= old(out)@ + esc(s@.take(i as int + 1)));
        }
        i += 1;
    }
    proof {
        assert(s@.take(n as int) =~= s@);
    }
}

/// Append the characters of a literal.
#[verifier::loop_isolation(false)]
fn push_lit(out: &mut Vec<char>, lit: &str)
    ensures
        final(out)@ == old(out)@ + lit@,
{
    let n = lit.unicode_len();
    let mut i: usize = 0;
    while i < n
        invariant
            i <= n,
            out@ == old(out)@ + lit@.take(i as int),
        decreases n - i,
    {
        let c = lit.get_char(i);
        out.push(c);
        proof {
            assert(out@ =~= old(out)@ + lit@.take(i as int + 1));
        }
        i += 1;
    }
    proof {
        assert(lit@.take(n as int) =~= lit@);
    }
}

/// Append one record in its JSON form.
fn push_book(out: &mut Vec<char>, b: &Book)
    ensures
        final(out)@ == old(out)@ + enc_book(b@),
{
    push_lit(out, "{\"id\":");
    push_digits(out, b.id);
    push_lit(out, ",\"title\":\"");
    push_esc(out, b.title.as_str());
    out.push('"');
    push_lit(out, ",\"author\":\"");
    push_esc(out, b.author.as_str());
    out.push('"');
    push_lit(out, ",\"genre\":\"");
    push_esc(out, b.genre.as_str());
    out.push('"');
    push_lit(out, ",\"rating\":");
    push_digits(out, b.rating_tenths / 10);
    out.push('.');
    let c = digit_char_of(b.rating_tenths % 10);
    out.push(c);
    push_lit(out, ",\"status\":\"");
    push_esc(out, b.status.as_str());
    out.push('"');
    push_lit(out, "}");
    proof {
        assert(out@ =~= old(out)@ + enc_book(b@));
    }
}

/// Write the whole collection in its JSON form.
#[verifier::loop_isolation(false)]
pub fn encode(items: &Vec<Book>) -> (r: Vec<char>)
    ensures
        r@ == enc_books(views(items@)),
{
    let mut out: Vec<char> = Vec::new();
    out.push('[');
    if items.len() > 0 {
        push_book(&mut out, &items[0]);
        let mut i: usize = 1;
        while i < items.len()
            invariant
                1 <= i <= items.len(),
                out@ == seq!['['] + enc_book(views(items@)[0]) + enc_tail(views(items@).subrange(1, i as int)),
            decreases items.len() - i,
        {
            out.push(',');
            push_book(&mut out, &items[i]);
            proof {
                lemma_enc_tail_push(views(items@).subrange(1, i as int), views(items@)[i as int]);
                assert(views(items@).subrange(1, i as int).push(views(items@)[i as int]) =~= views(
                    items@,
                ).subrange(1, i as int + 1));
                assert(out@ =~= seq!['['] + enc_book(views(items@)[0]) + enc_tail(
                    views(items@).subrange(1, i as int + 1),
                ));
            }
            i += 1;
        }
        proof {
            assert(views(items@).subrange(1, items@.len() as int) =~= views(items@).skip(1));
        }
    }
    out.push(']');
    proof {
        assert(out@ =~= enc_books(views(items@)));
    }
    out
}

/// Appending one record to the tail extends its encoding at the end.
proof fn lemma_enc_tail_push(bs: Seq<BookView>, b: BookView)
    ensures
        enc_tail(bs.push(b)) == enc_tail(bs) + seq![','] + enc_book(b),
    decreases bs.len(),
{
    if bs.len() == 0 {
        assert(bs.push(b).skip(1) =~= Seq::<BookView>::empty());
        assert(bs.push(b)[0] == b);
        assert(enc_tail(bs.push(b)) == seq![','] + enc_book(b) + enc_tail(Seq::<BookView>::empty()));
        assert(seq![','] + enc_book(b) + Seq::<char>::empty() =~= enc_tail(bs) + seq![','] + enc_book(b));
    } else {
        assert(bs.push(b).skip(1) =~= bs.skip(1).push(b));
        assert(bs.push(b)[0] == bs[0]);
        lemma_enc_tail_push(bs.skip(1), b);
        assert(enc_tail(bs.push(b)) == seq![','] + enc_book(bs[0]) + (enc_tail(bs.skip(1)) + seq![','] + enc_book(b)));
        assert(seq![','] + enc_book(bs[0]) + (enc_tail(bs.skip(1)) + seq![','] + enc_book(b)) =~= (seq![','] + enc_book(bs[0]) + enc_tail(bs.skip(1))) + seq![','] + enc_book(b));
    }
}

// ---------------------------------------------------------------------------
// The parser, as a spec-level grammar over character sequences. Each function
// consumes a prefix and returns what it stands for together with the suffix.
// ---------------------------------------------------------------------------

/// Consume the characters of `lit`, one by one.
pub open spec fn eats(s: Seq<char>, lit: Seq<char>) -> Option<Seq<char>>
    decreases lit.len(),
{
    if lit.len() == 0 {
        Some(s)
    } else if s.len() > 0 && s[0] == lit[0] {
        eats(s.skip(1), lit.skip(1))
    } else {
        None
    }
}

/// Consume digits while the accumulated value still fits the id's machine
/// width; a digit that would push it over is left unconsumed (the document
/// then fails to parse at the next expected character).
pub open spec fn parse_num_rec(s: Seq<char>, acc: int) -> (int, Seq<char>)
    decreases s.len(),
{
    if s.len() > 0 {
        match digit_of(s[0]) {
            Some(d) => if acc * 10 + d <= u64::MAX {
                parse_num_rec(s.skip(1), acc * 10 + d)
            } else {
                (acc, s)
            },
            None => (acc, s),
        }
    } else {
        (acc, s)
    }
}

/// A number: at least one digit.
pub open spec fn parse_num(s: Seq<char>) -> Option<(int, Seq<char>)> {
    if s.len() > 0 && is_digit(s[0]) {
        Some(parse_num_rec(s, 0))
    } else {
        None
    }
}

/// The contents of a JSON string up to and including its closing quote.
pub open spec fn parse_jstr_rec(s: Seq<char>, acc: Seq<char>) -> Option<(Seq<char>, Seq<char>)>
    decreases s.len(),
{
    if s.len() == 0 {
        None
    } else if s[0] == '"' {
        Some((acc, s.skip(1)))
    } else if s[0] == '\\' {
        if s.len() >= 2 && unesc_code(s[1]) is Some {
            parse_jstr_rec(s.skip(2), acc.push(unesc_code(s[1])->Some_0))
        } else {
            None
        }
    } else {
        parse_jstr_rec(s.skip(1), acc.push(s[0]))
    }
}

/// A rating: a whole part and exactly one fractional digit, read back as a
/// count of tenths.
pub open spec fn parse_rating(s: Seq<char>) -> Option<(int, Seq<char>)> {
    match parse_num(s) {
        None => None,
        Some((w, s1)) => if s1.len() >= 2 && s1[0] == '.' && is_digit(s1[1]) && w * 10
            + digit_of(s1[1])->Some_0 <= u64::MAX {
            Some((w * 10 + digit_of(s1[1])->Some_0, s1.skip(2)))
        } else {
            None
        },
    }
}

/// One record: an object with the six fields in their fixed order.
pub open spec fn parse_book(s: Seq<char>) -> Option<(BookView, Seq<char>)> {
    match eats(s, "{\"id\":"@) {
        None => None,
        Some(s1) => match parse_num(s1) {
            None => None,
            Some((id, s2)) => match eats(s2, ",\"title\":\""@) {
                None => None,
                Some(s3) => match parse_jstr_rec(s3, Seq::empty()) {
                    None => None,
                    Some((title, s4)) => match eats(s4, ",\"author\":\""@) {
                        None => None,
                        Some(s5) => match parse_jstr_rec(s5, Seq::empty()) {
                            None => None,
                            Some((author, s6)) => match eats(s6, ",\"genre\":\""@) {
                                None => None,
                                Some(s7) => match parse_jstr_rec(s7, Seq::empty()) {
                                    None => None,
                                    Some((genre, s8)) => match eats(s8, ",\"rating\":"@) {
                                        None => None,
                                        Some(s9) => match parse_rating(s9) {
                                            None => None,
                                            Some((tenths, s10)) => match eats(
                                                s10,
                                                ",\"status\":\""@,
                                            ) {
                                                None => None,
                                                Some(s11) => match parse_jstr_rec(
                                                    s11,
                                                    Seq::empty(),
                                                ) {
                                                    None => None,
                                                    Some((status, s12)) => match eats(s12, "}"@) {
                                                        None => None,
                                                        Some(s13) => Some(
                                                            (
                                                                BookView {
                                                                    id: id,
                                                                    title: title,
                                                                    author: author,
                                                                    genre: genre,
                                                                    rating_tenths: tenths,
                                                                    status: status,
                                                                },
                                                                s13,
                                                            ),
                                                        ),
                                                    },
                                                },
                                            },
                                        },
                                    },
                                },
                            },
                        },
                    },
                },
            },
        },
    }
}

/// The records after the first: either the closing bracket, or a comma and
/// one more record. The guard that the suffix shrank keeps the recursion
/// well-founded; a parsed record is never empty, so it always holds.
pub open spec fn parse_books_rest(s: Seq<char>, acc: Seq<BookView>) -> Option<
    (Seq<BookView>, Seq<char>),
>
    decreases s.len(),
{
    if s.len() > 0 && s[0] == ']' {
        Some((acc, s.skip(1)))
    } else if s.len() > 0 && s[0] == ',' {
        match parse_book(s.skip(1)) {
            None => None,
            Some((b, s2)) => if s2.len() < s.len() {
                parse_books_rest(s2, acc.push(b))
            } else {
                None
            },
        }
    } else {
        None
    }
}

/// A whole document: a JSON array of records and nothing after it.
pub open spec fn parse_doc(s: Seq<char>) -> Option<Seq<BookView>> {
    if s.len() > 0 && s[0] == '[' {
        let s1 = s.skip(1);
        if s1.len() > 0 && s1[0] == ']' {
            if s1.len() == 1 {
                Some(Seq::empty())
            } else {
                None
            }
        } else {
            match parse_book(s1) {
                None => None,
                Some((b, s2)) => match parse_books_rest(s2, seq![b]) {
                    None => None,
                    Some((bs, s3)) => if s3.len() == 0 {
                        Some(bs)
                    } else {
                        None
                    },
                },
            }
        }
    } else {
        None
    }
}

/// A record whose numbers fit the format's machine width; every record the
/// session holds does.
pub open spec fn book_wf(b: BookView) -> bool {
    0 <= b.id <= u64::MAX && 0 <= b.rating_tenths <= u64::MAX
}

// ---------------------------------------------------------------------------
// Round trip: parsing an encoded collection gives the records back.
// ---------------------------------------------------------------------------

proof fn lemma_eats_prefix(lit: Seq<char>, rest: Seq<char>)
    ensures
        eats(lit + rest, lit) == Some(rest),
    decreases lit.len(),
{
    if lit.len() == 0 {
        assert(lit + rest =~= rest);
    } else {
        assert((lit + rest)[0] == lit[0]);
        assert((lit + rest).skip(1) =~= lit.skip(1) + rest);
        lemma_eats_prefix(lit.skip(1), rest);
    }
}

/// The value the digit loop accumulates.
spec fn val_acc(ds: Seq<char>, acc: int) -> int
    decreases ds.len(),
{
    if ds.len() == 0 {
        acc
    } else {
        match digit_of(ds[0]) {
            Some(d) => val_acc(ds.skip(1), acc * 10 + d),
            None => acc,
        }
    }
}

proof fn lemma_val_acc_lb(ds: Seq<char>, acc: int)
    requires
        acc >= 0,
        forall|k: int| 0 <= k < ds.len() ==> is_digit(#[trigger] ds[k]),
    ensures
        val_acc(ds, acc) >= acc,
    decreases ds.len(),
{
    if ds.len() > 0 {
        assert(is_digit(ds[0]));
        let d = digit_of(ds[0])->Some_0;
        assert(forall|k: int| 0 <= k < ds.skip(1).len() ==> is_digit(#[trigger] ds.skip(1)[k]));
        lemma_val_acc_lb(ds.skip(1), acc * 10 + d);
    }
}

proof fn lemma_parse_digits(ds: Seq<char>, rest: Seq<char>, acc: int)
    requires
        acc >= 0,
        forall|k: int| 0 <= k < ds.len() ==> is_digit(#[trigger] ds[k]),
        rest.len() > 0 ==> !is_digit(rest[0]),
        val_acc(ds, acc) <= u64::MAX,
    ensures
        parse_num_rec(ds + rest, acc) == (val_acc(ds, acc), rest),
    decreases ds.len(),
{
    if ds.len() == 0 {
        assert(ds + rest =~= rest);
    } else {
        assert(is_digit(ds[0]));
        let d = digit_of(ds[0])->Some_0;
        assert(forall|k: int| 0 <= k < ds.skip(1).len() ==> is_digit(#[trigger] ds.skip(1)[k]));
        lemma_val_acc_lb(ds.skip(1), acc * 10 + d);
        assert((ds + rest)[0] == ds[0]);
        assert((ds + rest).skip(1) =~= ds.skip(1) + rest);
        lemma_parse_digits(ds.skip(1), rest, acc * 10 + d);
    }
}

/// Ten to the number of digits of `n`.
spec fn pow10_len(n: int) -> int
    decreases n,
{
    if n <= 9 {
        10
    } else {
        10 * pow10_len(n / 10)
    }
}

proof fn lemma_digits_all(n: int)
    requires
        n >= 0,
    ensures
        digits_of(n).len() >= 1,
        forall|k: int| 0 <= k < digits_of(n).len() ==> is_digit(#[trigger] digits_of(n)[k]),
    decreases n,
{
    if n <= 9 {
        assert(digit_of(digit_char(n)) == Some(n));
    } else {
        lemma_digits_all(n / 10);
        assert(0 <= n % 10 <= 9);
        assert(digit_of(digit_char(n % 10)) == Some(n % 10));
        assert(forall|k: int|
            0 <= k < digits_of(n).len() ==> is_digit(#[trigger] digits_of(n)[k])) by {
            assert(digits_of(n) == digits_of(n / 10).push(digit_char(n % 10)));
            assert(forall|k: int| 0 <= k < digits_of(n / 10).len() ==> is_digit(
                #[trigger] digits_of(n / 10)[k],
            ));
        }
    }
}

proof fn lemma_val_acc_push(ds: Seq<char>, c: char, acc: int)
    requires
        is_digit(c),
        forall|k: int| 0 <= k < ds.len() ==> is_digit(#[trigger] ds[k]),
    ensures
        val_acc(ds.push(c), acc) == val_acc(ds, acc) * 10 + digit_of(c)->Some_0,
    decreases ds.len(),
{
    if ds.len() == 0 {
        assert(ds.push(c)[0] == c);
        assert(ds.push(c).skip(1) =~= Seq::<char>::empty());
        let d = digit_of(c)->Some_0;
        assert(val_acc(ds.push(c).skip(1), acc * 10 + d) == acc * 10 + d);
        assert(val_acc(ds.push(c), acc) == acc * 10 + d);
    } else {
        assert(ds.push(c)[0] == ds[0]);
        assert(ds.push(c).skip(1) =~= ds.skip(1).push(c));
        assert(forall|k: int| 0 <= k < ds.skip(1).len() ==> is_digit(#[trigger] ds.skip(1)[k]));
        lemma_val_acc_push(ds.skip(1), c, acc * 10 + digit_of(ds[0])->Some_0);
    }
}

proof fn lemma_val_digits(n: int, acc: int)
    requires
        n >= 0,
        acc >= 0,
    ensures
        val_acc(digits_of(n), acc) == acc * pow10_len(n) + n,
    decreases n,
{
    if n <= 9 {
        assert(digit_of(digit_char(n)) == Some(n));
        assert(digits_of(n) == seq![digit_char(n)]);
        assert(seq![digit_char(n)].skip(1) =~= Seq::<char>::empty());
        assert(val_acc(seq![digit_char(n)].skip(1), acc * 10 + n) == acc * 10 + n);
        assert(val_acc(digits_of(n), acc) == acc * 10 + n);
        assert(pow10_len(n) == 10);
    } else {
        lemma_val_digits(n / 10, acc);
        lemma_digits_all(n / 10);
        assert(0 <= n % 10 <= 9);
        assert(digit_of(digit_char(n % 10)) == Some(n % 10));
        lemma_val_acc_push(digits_of(n / 10), digit_char(n % 10), acc);
        assert(val_acc(digits_of(n), acc) == val_acc(digits_of(n / 10), acc) * 10 + n % 10);
        assert(val_acc(digits_of(n), acc) == (acc * pow10_len(n / 10) + n / 10) * 10 + n % 10);
        vstd::arithmetic::div_mod::lemma_fundamental_div_mod(n, 10);
        assert((acc * pow10_len(n / 10) + n / 10) * 10 + n % 10 == acc * (10 * pow10_len(n / 10))
            + ((n / 10) * 10 + n % 10)) by (nonlinear_arith);
        assert(pow10_len(n) == 10 * pow10_len(n / 10));
    }
}

proof fn lemma_parse_num_enc(n: int, rest: Seq<char>)
    requires
        0 <= n <= u64::MAX,
        rest.len() > 0 ==> !is_digit(rest[0]),
    ensures
        parse_num(digits_of(n) + rest) == Some((n, rest)),
{
    lemma_digits_all(n);
    lemma_val_digits(n, 0);
    lemma_parse_digits(digits_of(n), rest, 0);
    assert((digits_of(n) + rest)[0] == digits_of(n)[0]);
}

proof fn lemma_parse_jstr(t: Seq<char>, rest: Seq<char>, acc: Seq<char>)
    ensures
        parse_jstr_rec(enc_str(t) + rest, acc) == Some((acc + t, rest)),
    decreases t.len(),
{
    let s = enc_str(t) + rest;
    if t.len() == 0 {
        assert(s =~= seq!['"'] + rest);
        assert(s[0] == '"');
        assert(s.skip(1) =~= rest);
        assert(acc + t =~= acc);
    } else {
        let c = t[0];
        assert(esc(t) == esc_char(c) + esc(t.skip(1)));
        if c == '"' || c == '\\' || c == '\n' || c == '\r' || c == '\t' {
            let code = esc_char(c)[1];
            assert(esc_char(c).len() == 2);
            assert(esc_char(c)[0] == '\\');
            assert(s =~= esc_char(c) + (enc_str(t.skip(1)) + rest));
            assert(s[0] == '\\');
            assert(s.len() >= 2);
            assert(s[1] == code);
            assert(unesc_code(code) == Some(c));
            assert(s.skip(2) =~= enc_str(t.skip(1)) + rest);
            lemma_parse_jstr(t.skip(1), rest, acc.push(c));
            assert(acc.push(c) + t.skip(1) =~= acc + t);
        } else {
            assert(esc_char(c) =~= seq![c]);
            assert(s =~= seq![c] + (enc_str(t.skip(1)) + rest));
            assert(s[0] == c);
            assert(c != '"' && c != '\\');
            assert(s.skip(1) =~= enc_str(t.skip(1)) + rest);
            lemma_parse_jstr(t.skip(1), rest, acc.push(c));
            assert(acc.push(c) + t.skip(1) =~= acc + t);
        }
    }
}

proof fn lemma_parse_book_enc(b: BookView, rest: Seq<char>)
    requires
        book_wf(b),
    ensures
        parse_book(enc_book(b) + rest) == Some((b, rest)),
{
    reveal_strlit("{\"id\":");
    reveal_strlit(",\"title\":\"");
    reveal_strlit(",\"author\":\"");
    reveal_strlit(",\"genre\":\"");
    reveal_strlit(",\"rating\":");
    reveal_strlit(",\"status\":\"");
    reveal_strlit("}");
    let t12 = "}"@ + rest;
    let t11 = enc_str(b.status) + t12;
    let t10 = ",\"status\":\""@ + t11;
    let t9 = enc_rating(b.rating_tenths) + t10;
    let t8 = ",\"rating\":"@ + t9;
    let t7 = enc_str(b.genre) + t8;
    let t6 = ",\"genre\":\""@ + t7;
    let t5 = enc_str(b.author) + t6;
    let t4 = ",\"author\":\""@ + t5;
    let t3 = enc_str(b.title) + t4;
    let t2 = ",\"title\":\""@ + t3;
    let t1 = digits_of(b.id) + t2;
    let t0 = "{\"id\":"@ + t1;
    assert(enc_book(b) + rest =~= t0);
    lemma_eats_prefix("{\"id\":"@, t1);
    assert(t2[0] == ',');
    assert(!is_digit(','));
    lemma_parse_num_enc(b.id, t2);
    lemma_eats_prefix(",\"title\":\""@, t3);
    lemma_parse_jstr(b.title, t4, Seq::empty());
    assert(Seq::<char>::empty() + b.title =~= b.title);
    lemma_eats_prefix(",\"author\":\""@, t5);
    lemma_parse_jstr(b.author, t6, Seq::empty());
    assert(Seq::<char>::empty() + b.author =~= b.author);
    lemma_eats_prefix(",\"genre\":\""@, t7);
    lemma_parse_jstr(b.genre, t8, Seq::empty());
    assert(Seq::<char>::empty() + b.genre =~= b.genre);
    lemma_eats_prefix(",\"rating\":"@, t9);
    let w = b.rating_tenths / 10;
    let f = b.rating_tenths % 10;
    let r9 = seq!['.'] + seq![digit_char(f)] + t10;
    assert(t9 =~= digits_of(w) + r9);
    assert(r9[0] == '.');
    assert(!is_digit('.'));
    lemma_parse_num_enc(w, r9);
    assert(0 <= f <= 9);
    assert(digit_of(digit_char(f)) == Some(f));
    assert(r9.len() >= 2);
    assert(r9[1] == digit_char(f));
    vstd::arithmetic::div_mod::lemma_fundamental_div_mod(b.rating_tenths, 10);
    assert(w * 10 + f == b.rating_tenths);
    assert(r9.skip(2) =~= t10);
    assert(parse_rating(t9) == Some((b.rating_tenths, t10)));
    lemma_eats_prefix(",\"status\":\""@, t11);
    lemma_parse_jstr(b.status, t12, Seq::empty());
    assert(Seq::<char>::empty() + b.status =~= b.status);
    lemma_eats_prefix("}"@, rest);
    let parsed = parse_book(enc_book(b) + rest)->Some_0.0;
    assert(parse_book(enc_book(b) + rest) is Some);
    assert(parsed =~= b);
}

proof fn lemma_parse_books_rest_enc(bs: Seq<BookView>, acc: Seq<BookView>)
    requires
        forall|k: int| 0 <= k < bs.len() ==> book_wf(#[trigger] bs[k]),
    ensures
        parse_books_rest(enc_tail(bs) + seq![']'], acc) == Some((acc + bs, Seq::<char>::empty())),
    decreases bs.len(),
{
    let s = enc_tail(bs) + seq![']'];
    if bs.len() == 0 {
        assert(s =~= seq![']']);
        assert(s[0] == ']');
        assert(s.skip(1) =~= Seq::<char>::empty());
        assert(acc + bs =~= acc);
    } else {
        let inner = enc_tail(bs.skip(1)) + seq![']'];
        assert(s =~= seq![','] + (enc_book(bs[0]) + inner));
        assert(s[0] == ',');
        assert(s[0] != ']');
        assert(s.skip(1) =~= enc_book(bs[0]) + inner);
        assert(book_wf(bs[0]));
        lemma_parse_book_enc(bs[0], inner);
        assert(inner.len() < s.len());
        assert(forall|k: int| 0 <= k < bs.skip(1).len() ==> book_wf(#[trigger] bs.skip(1)[k]));
        lemma_parse_books_rest_enc(bs.skip(1), acc.push(bs[0]));
        assert(acc.push(bs[0]) + bs.skip(1) =~= acc + bs);
    }
}

/// Law: the round trip. Writing a collection of records in the on-disk form
/// and parsing it back yields the same records, field for field and in the
/// same order.
pub proof fn lemma_round_trip(bs: Seq<BookView>)
    requires
        forall|k: int| 0 <= k < bs.len() ==> book_wf(#[trigger] bs[k]),
    ensures
        parse_doc(enc_books(bs)) == Some(bs),
{
    reveal_strlit("{\"id\":");
    let s = enc_books(bs);
    if bs.len() == 0 {
        assert(s =~= seq!['['] + seq![']']);
        assert(s[0] == '[');
        assert(s.skip(1) =~= seq![']']);
    } else {
        let rest1 = enc_tail(bs.skip(1)) + seq![']'];
        assert(s =~= seq!['['] + (enc_book(bs[0]) + rest1));
        assert(s[0] == '[');
        assert(s.skip(1) =~= enc_book(bs[0]) + rest1);
        assert(enc_book(bs[0])[0] == '{');
        assert(s.skip(1)[0] == '{');
        assert(book_wf(bs[0]));
        lemma_parse_book_enc(bs[0], rest1);
        assert(forall|k: int| 0 <= k < bs.skip(1).len() ==> book_wf(#[trigger] bs.skip(1)[k]));
        lemma_parse_books_rest_enc(bs.skip(1), seq![bs[0]]);
        assert(seq![bs[0]] + bs.skip(1) =~= bs);
    }
}

// ---------------------------------------------------------------------------
// The executable parser, proved to implement the spec grammar.
// ---------------------------------------------------------------------------

/// The numeric value of a digit character, if it is one.
fn digit_of_ex(c: char) -> (r: Option<u64>)
    ensures
        match r {
            Some(d) => digit_of(c) == Some(d as int),
            None => digit_of(c) is None,
        },
{
    match c {
        '0' => Some(0),
        '1' => Some(1),
        '2' => Some(2),
        '3' => Some(3),
        '4' => Some(4),
        '5' => Some(5),
        '6' => Some(6),
        '7' => Some(7),
        '8' => Some(8),
        '9' => Some(9),
        _ => None,
    }
}

/// The character a two-character escape stands for, if any.
fn unesc_ex(c: char) -> (r: Option<char>)
    ensures
        r == unesc_code(c),
{
    match c {
        '"' => Some('"'),
        '\\' => Some('\\'),
        'n' => Some('\n'),
        'r' => Some('\r'),
        't' => Some('\t'),
        _ => None,
    }
}

/// Consume the characters of `lit` starting at `i`.
#[verifier::loop_isolation(false)]
fn eat_lit(s: &Vec<char>, i: usize, lit: &str) -> (r: Option<usize>)
    requires
        i <= s.len(),
    ensures
        match r {
            Some(j) => i <= j <= s.len() && eats(s@.skip(i as int), lit@) == Some(
                s@.skip(j as int),
            ),
            None => eats(s@.skip(i as int), lit@) is None,
        },
{
    let n = lit.unicode_len();
    proof {
        assert(lit@.skip(0) =~= lit@);
    }
    let mut k: usize = 0;
    while k < n
        invariant
            k <= n,
            i + k <= s.len(),
            eats(s@.skip(i as int), lit@) == eats(s@.skip(i as int + k), lit@.skip(k as int)),
        decreases n - k,
    {
        if i + k >= s.len() {
            proof {
                assert(s@.skip(i as int + k).len() == 0);
                assert(lit@.skip(k as int).len() > 0);
            }
            return None;
        }
        let c = s[i + k];
        let lc = lit.get_char(k);
        proof {
            assert(s@.skip(i as int + k)[0] == s@[i as int + k]);
            assert(lit@.skip(k as int)[0] == lit@[k as int]);
        }
        if c != lc {
            return None;
        }
        proof {
            assert(s@.skip(i as int + k).skip(1) =~= s@.skip(i as int + k + 1));
            assert(lit@.skip(k as int).skip(1) =~= lit@.skip(k as int + 1));
        }
        k += 1;
    }
    proof {
        assert(lit@.skip(n as int) =~= Seq::<char>::empty());
    }
    Some(i + k)
}

/// The digit loop of a number.
fn parse_num_go(s: &Vec<char>, j: usize, acc: u64) -> (r: (u64, usize))
    requires
        j <= s.len(),
    ensures
        j <= r.1 <= s.len(),
        parse_num_rec(s@.skip(j as int), acc as int) == (r.0 as int, s@.skip(r.1 as int)),
    decreases s.len() - j,
{
    if j < s.len() {
        proof {
            assert(s@.skip(j as int)[0] == s@[j as int]);
        }
        match digit_of_ex(s[j]) {
            Some(d) => {
                let q = (u64::MAX - d) / 10;
                proof {
                    vstd::arithmetic::div_mod::lemma_fundamental_div_mod(
                        (u64::MAX - d) as int,
                        10,
                    );
                }
                if acc <= q {
                    proof {
                        assert(s@.skip(j as int).skip(1) =~= s@.skip(j as int + 1));
                    }
                    parse_num_go(s, j + 1, acc * 10 + d)
                } else {
                    (acc, j)
                }
            },
            None => (acc, j),
        }
    } else {
        proof {
            assert(s@.skip(j as int).len() == 0);
        }
        (acc, j)
    }
}

/// A number starting at `i`: at least one digit.
fn parse_num_ex(s: &Vec<char>, i: usize) -> (r: Option<(u64, usize)>)
    requires
        i <= s.len(),
    ensures
        match r {
            Some(p) => i <= p.1 <= s.len() && parse_num(s@.skip(i as int)) == Some(
                (p.0 as int, s@.skip(p.1 as int)),
            ),
            None => parse_num(s@.skip(i as int)) is None,
        },
{
    if i < s.len() {
        proof {
            assert(s@.skip(i as int)[0] == s@[i as int]);
        }
        match digit_of_ex(s[i]) {
            Some(_) => {
                let (v, j) = parse_num_go(s, i, 0);
                Some((v, j))
            },
            None => None,
        }
    } else {
        None
    }
}

/// The contents of a JSON string starting at `j`, after the opening quote.
fn parse_jstr_go(s: &Vec<char>, j: usize, acc: Vec<char>) -> (r: Option<(Vec<char>, usize)>)
    requires
        j <= s.len(),
    ensures
        match r {
            Some(p) => j <= p.1 <= s.len() && parse_jstr_rec(s@.skip(j as int), acc@) == Some(
                (p.0@, s@.skip(p.1 as int)),
            ),
            None => parse_jstr_rec(s@.skip(j as int), acc@) is None,
        },
    decreases s.len() - j,
{
    if j >= s.len() {
        proof {
            assert(s@.skip(j as int).len() == 0);
        }
        return None;
    }
    let c = s[j];
    proof {
        assert(s@.skip(j as int)[0] == s@[j as int]);
    }
    if c == '"' {
        proof {
            assert(s@.skip(j as int).skip(1) =~= s@.skip(j as int + 1));
        }
        return Some((acc, j + 1));
    }
    if c == '\\' {
        if j + 1 < s.len() {
            proof {
                assert(s@.skip(j as int)[1] == s@[j as int + 1]);
            }
            match unesc_ex(s[j + 1]) {
                Some(u) => {
                    let mut acc2 = acc;
                    acc2.push(u);
                    proof {
                        assert(s@.skip(j as int).skip(2) =~= s@.skip(j as int + 2));
                    }
                    parse_jstr_go(s, j + 2, acc2)
                },
                None => None,
            }
        } else {
            proof {
                assert(s@.skip(j as int).len() < 2);
            }
            None
        }
    } else {
        let mut acc2 = acc;
        acc2.push(c);
        proof {
            assert(s@.skip(j as int).skip(1) =~= s@.skip(j as int + 1));
        }
        parse_jstr_go(s, j + 1, acc2)
    }
}

/// A rating starting at `i`, read back as its count of tenths.
fn parse_rating_ex(s: &Vec<char>, i: usize) -> (r: Option<(u64, usize)>)
    requires
        i <= s.len(),
    ensures
        match r {
            Some(p) => i <= p.1 <= s.len() && parse_rating(s@.skip(i as int)) == Some(
                (p.0 as int, s@.skip(p.1 as int)),
            ),
            None => parse_rating(s@.skip(i as int)) is None,
        },
{
    match parse_num_ex(s, i) {
        None => None,
        Some((w, j)) => {
            if s.len() - j >= 2 {
                proof {
                    assert(s@.skip(j as int)[0] == s@[j as int]);
                    assert(s@.skip(j as int)[1] == s@[j as int + 1]);
                }
                if s[j] == '.' {
                    match digit_of_ex(s[j + 1]) {
                        Some(d) => {
                            let q = (u64::MAX - d) / 10;
                            proof {
                                vstd::arithmetic::div_mod::lemma_fundamental_div_mod(
                                    (u64::MAX - d) as int,
                                    10,
                                );
                            }
                            if w <= q {
                                proof {
                                    assert(s@.skip(j as int).skip(2) =~= s@.skip(j as int + 2));
                                }
                                Some((w * 10 + d, j + 2))
                            } else {
                                None
                            }
                        },
                        None => None,
                    }
                } else {
                    None
                }
            } else {
                proof {
                    assert(s@.skip(j as int).len() < 2);
                }
                None
            }
        },
    }
}

/// One record starting at `i`.
fn parse_book_ex(s: &Vec<char>, i: usize) -> (r: Option<(Book, usize)>)
    requires
        i <= s.len(),
    ensures
        match r {
            Some(p) => i <= p.1 <= s.len() && parse_book(s@.skip(i as int)) == Some(
                (p.0@, s@.skip(p.1 as int)),
            ),
            None => parse_book(s@.skip(i as int)) is None,
        },
{
    let j1 = match eat_lit(s, i, "{\"id\":") {
        Some(j) => j,
        None => {
            return None;
        },
    };
    let (id, j2) = match parse_num_ex(s, j1) {
        Some(p) => p,
        None => {
            return None;
        },
    };
    let j3 = match eat_lit(s, j2, ",\"title\":\"") {
        Some(j) => j,
        None => {
            return None;
        },
    };
    let empty1: Vec<char> = Vec::new();
    let (title, j4) = match parse_jstr_go(s, j3, empty1) {
        Some(p) => p,
        None => {
            return None;
        },
    };
    let j5 = match eat_lit(s, j4, ",\"author\":\"") {
        Some(j) => j,
        None => {
            return None;
        },
    };
    let empty2: Vec<char> = Vec::new();
    let (author, j6) = match parse_jstr_go(s, j5, empty2) {
        Some(p) => p,
        None => {
            return None;
        },
    };
    let j7 = match eat_lit(s, j6, ",\"genre\":\"") {
        Some(j) => j,
        None => {
            return None;
        },
    };
    let empty3: Vec<char> = Vec::new();
    let (genre, j8) = match parse_jstr_go(s, j7, empty3) {
        Some(p) => p,
        None => {
            return None;
        },
    };
    let j9 = match eat_lit(s, j8, ",\"rating\":") {
        Some(j) => j,
        None => {
            return None;
        },
    };
    let (tenths, j10) = match parse_rating_ex(s, j9) {
        Some(p) => p,
        None => {
            return None;
        },
    };
    let j11 = match eat_lit(s, j10, ",\"status\":\"") {
        Some(j) => j,
        None => {
            return None;
        },
    };
    let empty4: Vec<char> = Vec::new();
    let (status, j12) = match parse_jstr_go(s, j11, empty4) {
        Some(p) => p,
        None => {
            return None;
        },
    };
    let j13 = match eat_lit(s, j12, "}") {
        Some(j) => j,
        None => {
            return None;
        },
    };
    let b = Book {
        id: id,
        title: string_of_chars(&title),
        author: string_of_chars(&author),
        genre: string_of_chars(&genre),
        rating_tenths: tenths,
        status: string_of_chars(&status),
    };
    proof {
        assert(b@ =~= parse_book(s@.skip(i as int))->Some_0.0);
    }
    Some((b, j13))
}

/// The records after the first, starting at `j`.
fn parse_books_go(s: &Vec<char>, j: usize, acc: Vec<Book>) -> (r: Option<(Vec<Book>, usize)>)
    requires
        j <= s.len(),
    ensures
        match r {
            Some(p) => p.1 <= s.len() && parse_books_rest(s@.skip(j as int), views(acc@)) == Some(
                (views(p.0@), s@.skip(p.1 as int)),
            ),
            None => parse_books_rest(s@.skip(j as int), views(acc@)) is None,
        },
    decreases s.len() - j,
{
    if j >= s.len() {
        proof {
            assert(s@.skip(j as int).len() == 0);
        }
        return None;
    }
    let c = s[j];
    proof {
        assert(s@.skip(j as int)[0] == s@[j as int]);
    }
    if c == ']' {
        proof {
            assert(s@.skip(j as int).skip(1) =~= s@.skip(j as int + 1));
        }
        return Some((acc, j + 1));
    }
    if c == ',' {
        proof {
            assert(s@.skip(j as int).skip(1) =~= s@.skip(j as int + 1));
        }
        match parse_book_ex(s, j + 1) {
            None => None,
            Some((b, j2)) => {
                if j2 > j {
                    let mut acc2 = acc;
                    acc2.push(b);
                    proof {
                        assert(views(acc2@) =~= views(acc@).push(b@));
                    }
                    parse_books_go(s, j2, acc2)
                } else {
                    None
                }
            },
        }
    } else {
        None
    }
}

/// Parse a whole document. The result follows the spec grammar exactly: a
/// document it rejects comes back as nothing.
pub fn decode(s: &Vec<char>) -> (r: Option<Vec<Book>>)
    ensures
        match parse_doc(s@) {
            Some(bs) => r is Some && views(r->Some_0@) == bs,
            None => r is None,
        },
{
    if s.len() == 0 {
        return None;
    }
    if s[0] != '[' {
        return None;
    }
    if s.len() >= 2 {
        proof {
            assert(s@.skip(1)[0] == s@[1]);
        }
        if s[1] == ']' {
            if s.len() == 2 {
                let empty: Vec<Book> = Vec::new();
                proof {
                    assert(views(empty@) =~= Seq::<BookView>::empty());
                }
                return Some(empty);
            } else {
                return None;
            }
        }
    }
    match parse_book_ex(s, 1) {
        None => None,
        Some((b, j)) => {
            let mut acc: Vec<Book> = Vec::new();
            acc.push(b);
            proof {
                assert(views(acc@) =~= seq![b@]);
            }
            match parse_books_go(s, j, acc) {
                None => None,
                Some((v, j3)) => {
                    if j3 == s.len() {
                        proof {
                            assert(s@.skip(j3 as int).len() == 0);
                        }
                        Some(v)
                    } else {
                        None
                    }
                },
            }
        },
    }
}

/// Write the whole collection as the text of the on-disk mirror.
pub fn encode_to_string(items: &Vec<Book>) -> (r: String)
    ensures
        r@ == enc_books(views(items@)),
{
    let chars = encode(items);
    string_of_chars(&chars)
}

/// Read the text of the on-disk mirror. A text that does not parse, or a
/// collection that breaks the id invariant, degrades to an empty collection
/// rather than failing.
pub fn load_collection(s: &str) -> (r: Vec<Book>)
    ensures
        match parse_doc(s@) {
            Some(bs) => views(r@) == if crate::app::ids_increasing(bs) {
                bs
            } else {
                Seq::<BookView>::empty()
            },
            None => views(r@) == Seq::<BookView>::empty(),
        },
        crate::app::ids_increasing(views(r@)),
{
    let chars = chars_of_str(s);
    let parsed = decode(&chars);
    match parsed {
        Some(v) => {
            if crate::app::ids_strictly_increasing(&v) {
                v
            } else {
                let empty: Vec<Book> = Vec::new();
                proof {
                    assert(views(empty@) =~= Seq::<BookView>::empty());
                }
                empty
            }
        },
        None => {
            let empty: Vec<Book> = Vec::new();
            proof {
                assert(views(empty@) =~= Seq::<BookView>::empty());
            }
            empty
        },
    }
}

/// Every record the session can hold fits the format's number bounds.
pub proof fn lemma_views_wf(items: Seq<Book>)
    ensures
        forall|k: int| 0 <= k < views(items).len() ==> book_wf(#[trigger] views(items)[k]),
{
    assert forall|k: int| 0 <= k < views(items).len() implies book_wf(#[trigger] views(items)[k]) by {
        assert(views(items)[k] == items[k]@);
    }
}

/// Law: the round trip for a collection as the session holds it.
pub proof fn lemma_encode_decode(items: Seq<Book>)
    ensures
        parse_doc(enc_books(views(items))) == Some(views(items)),
{
    lemma_views_wf(items);
    lemma_round_trip(views(items));
}

} // verus!
