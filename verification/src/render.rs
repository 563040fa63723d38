use vstd::prelude::*;
use crate::annotation::Annotation;

verus! {

/// The character for one decimal digit value.
pub open spec fn digit_char(d: nat) -> char {
    if d == 0 {
        '0'
    } else if d == 1 {
        '1'
    } else if d == 2 {
        '2'
    } else if d == 3 {
        '3'
    } else if d == 4 {
        '4'
    } else if d == 5 {
        '5'
    } else if d == 6 {
        '6'
    } else if d == 7 {
        '7'
    } else if d == 8 {
        '8'
    } else {
        '9'
    }
}

/// The decimal digits of `n`, most significant first, with no leading zeros
/// (a single '0' when `n` is zero).
pub open spec fn dec_chars(n: nat) -> Seq<char>
    decreases n,
{
    if n < 10 {
        seq![digit_char(n)]
    } else {
        dec_chars(n / 10).push(digit_char(n % 10))
    }
}

/// Exactly six fractional digits of a micro-unit remainder `f` (< 1_000_000),
/// most significant first, zero-padded.
pub open spec fn frac6_chars(f: nat) -> Seq<char> {
    seq![
        digit_char((f / 100000) % 10),
        digit_char((f / 10000) % 10),
        digit_char((f / 1000) % 10),
        digit_char((f / 100) % 10),
        digit_char((f / 10) % 10),
        digit_char(f % 10),
    ]
}

/// Fixed-point rendering of `m` micro-units: the whole part in decimal, a
/// dot, then exactly six fractional digits, as in `0.500000`.
pub open spec fn micro_chars(m: nat) -> Seq<char> {
    dec_chars(m / 1000000) + seq!['.'] + frac6_chars(m % 1000000)
}

/// One label line: class identifier then the four box coordinates, space
/// separated, coordinates at six decimal places. No newline.
pub open spec fn line_chars(a: Annotation) -> Seq<char> {
    dec_chars(a.class_id as nat) + seq![' '] + micro_chars(a.cx as nat) + seq![' '] + micro_chars(
        a.cy as nat,
    ) + seq![' '] + micro_chars(a.w as nat) + seq![' '] + micro_chars(a.h as nat)
}

/// The whole label file: one line per annotation, in order, each line
/// terminated by a newline.
pub open spec fn labels_chars(anns: Seq<Annotation>) -> Seq<char>
    decreases anns.len(),
{
    if anns.len() == 0 {
        Seq::empty()
    } else {
        labels_chars(anns.drop_last()) + line_chars(anns.last()) + seq!['\n']
    }
}

pub open spec fn is_dec_digit(c: char) -> bool {
    c == '0' || c == '1' || c == '2' || c == '3' || c == '4' || c == '5' || c == '6' || c == '7'
        || c == '8' || c == '9'
}

pub open spec fn all_digits(s: Seq<char>) -> bool {
    forall|i: int| 0 <= i < s.len() ==> is_dec_digit(#[trigger] s[i])
}

/// The numeric value read back from a digit character.
pub open spec fn digit_val(c: char) -> nat {
    if c == '0' {
        0
    } else if c == '1' {
        1
    } else if c == '2' {
        2
    } else if c == '3' {
        3
    } else if c == '4' {
        4
    } else if c == '5' {
        5
    } else if c == '6' {
        6
    } else if c == '7' {
        7
    } else if c == '8' {
        8
    } else {
        9
    }
}

/// The numeric value of a digit string, most significant digit first.
pub open spec fn digits_val(s: Seq<char>) -> nat
    decreases s.len(),
{
    if s.len() == 0 {
        0
    } else {
        digits_val(s.drop_last()) * 10 + digit_val(s.last())
    }
}

/// Splits `s` at every occurrence of `c`; separators are not kept. A string
/// with no separator yields one field; each separator opens a new field.
pub open spec fn split_on(s: Seq<char>, c: char) -> Seq<Seq<char>>
    decreases s.len(),
{
    if s.len() == 0 {
        seq![Seq::<char>::empty()]
    } else if s[0] == c {
        seq![Seq::<char>::empty()] + split_on(s.drop_first(), c)
    } else {
        let rest = split_on(s.drop_first(), c);
        seq![seq![s[0]] + rest[0]] + rest.drop_first()
    }
}

pub proof fn lemma_split_on_len(s: Seq<char>, c: char)
    ensures
        split_on(s, c).len() >= 1,
    decreases s.len(),
{
    if s.len() > 0 {
        lemma_split_on_len(s.drop_first(), c)
    }
}

/// A string without the separator is a single field.
pub proof fn lemma_split_on_nosep(s: Seq<char>, c: char)
    requires
        forall|i: int| 0 <= i < s.len() ==> (#[trigger] s[i]) != c,
    ensures
        split_on(s, c).len() == 1,
        split_on(s, c)[0] == s,
    decreases s.len(),
{
    if s.len() > 0 {
        assert forall|i: int| 0 <= i < s.drop_first().len() implies (#[trigger] s.drop_first()[i]) != c by {
            assert(s.drop_first()[i] == s[i + 1]);
        }
        lemma_split_on_nosep(s.drop_first(), c);
        assert(seq![s[0]] + s.drop_first() =~= s);
    }
}

/// Splitting at the first separator: a separator-free prefix becomes the
/// first field, and the rest splits on its own.
pub proof fn lemma_split_on_concat(p: Seq<char>, t: Seq<char>, c: char)
    requires
        forall|i: int| 0 <= i < p.len() ==> (#[trigger] p[i]) != c,
    ensures
        split_on(p + seq![c] + t, c).len() == 1 + split_on(t, c).len(),
        split_on(p + seq![c] + t, c)[0] == p,
        split_on(p + seq![c] + t, c).drop_first() == split_on(t, c),
    decreases p.len(),
{
    let s = p + seq![c] + t;
    lemma_split_on_len(s, c);
    if p.len() == 0 {
        assert(s =~= seq![c] + t);
        assert(s[0] == c);
        assert(s.drop_first() =~= t);
        assert(split_on(s, c) == seq![Seq::<char>::empty()] + split_on(t, c));
        assert(split_on(s, c)[0] =~= p);
        assert(split_on(s, c).drop_first() =~= split_on(t, c));
    } else {
        assert(s[0] == p[0]);
        assert(s[0] != c);
        assert forall|i: int| 0 <= i < p.drop_first().len() implies (#[trigger] p.drop_first()[i]) != c by {
            assert(p.drop_first()[i] == p[i + 1]);
        }
        assert(s.drop_first() =~= p.drop_first() + seq![c] + t);
        lemma_split_on_concat(p.drop_first(), t, c);
        let rest = split_on(s.drop_first(), c);
        assert(split_on(s, c) == seq![seq![s[0]] + rest[0]] + rest.drop_first());
        assert(seq![s[0]] + rest[0] =~= p);
        assert(split_on(s, c)[0] == p);
        assert(split_on(s, c).drop_first() =~= rest.drop_first());
    }
}

pub proof fn lemma_dec_chars_digits(n: nat)
    ensures
        dec_chars(n).len() >= 1,
        all_digits(dec_chars(n)),
    decreases n,
{
    if n < 10 {
        assert(is_dec_digit(digit_char(n)));
    } else {
        lemma_dec_chars_digits(n / 10);
        assert(is_dec_digit(digit_char(n % 10)));
        assert forall|i: int| 0 <= i < dec_chars(n).len() implies is_dec_digit(
            #[trigger] dec_chars(n)[i],
        ) by {
            if i < dec_chars(n / 10).len() {
                assert(dec_chars(n)[i] == dec_chars(n / 10)[i]);
            }
        }
    }
}

/// Reading the decimal rendering back gives the number itself.
pub proof fn lemma_digits_val_dec_chars(n: nat)
    ensures
        digits_val(dec_chars(n)) == n,
    decreases n,
{
    if n < 10 {
        assert(dec_chars(n).drop_last() =~= Seq::<char>::empty());
        assert(dec_chars(n).last() == digit_char(n));
        assert(digits_val(Seq::<char>::empty()) == 0);
        assert(digit_val(digit_char(n)) == n);
        assert(digits_val(dec_chars(n)) == digits_val(Seq::<char>::empty()) * 10 + digit_val(
            digit_char(n),
        ));
    } else {
        lemma_digits_val_dec_chars(n / 10);
        assert(dec_chars(n).drop_last() =~= dec_chars(n / 10));
        assert(dec_chars(n).last() == digit_char(n % 10));
        assert(digit_val(digit_char(n % 10)) == n % 10);
        assert(digits_val(dec_chars(n)) == digits_val(dec_chars(n / 10)) * 10 + digit_val(
            digit_char(n % 10),
        ));
        assert((n / 10) * 10 + n % 10 == n);
    }
}

pub proof fn lemma_frac6_digits(f: nat)
    ensures
        frac6_chars(f).len() == 6,
        all_digits(frac6_chars(f)),
{
    assert(is_dec_digit(digit_char((f / 100000) % 10)));
    assert(is_dec_digit(digit_char((f / 10000) % 10)));
    assert(is_dec_digit(digit_char((f / 1000) % 10)));
    assert(is_dec_digit(digit_char((f / 100) % 10)));
    assert(is_dec_digit(digit_char((f / 10) % 10)));
    assert(is_dec_digit(digit_char(f % 10)));
}

/// Reading the six fractional digits back gives the remainder itself.
pub proof fn lemma_digits_val_frac6(f: nat)
    requires
        f < 1000000,
    ensures
        digits_val(frac6_chars(f)) == f,
{
    let c0 = digit_char((f / 100000) % 10);
    let c1 = digit_char((f / 10000) % 10);
    let c2 = digit_char((f / 1000) % 10);
    let c3 = digit_char((f / 100) % 10);
    let c4 = digit_char((f / 10) % 10);
    let c5 = digit_char(f % 10);
    assert(digit_val(c0) == (f / 100000) % 10);
    assert(digit_val(c1) == (f / 10000) % 10);
    assert(digit_val(c2) == (f / 1000) % 10);
    assert(digit_val(c3) == (f / 100) % 10);
    assert(digit_val(c4) == (f / 10) % 10);
    assert(digit_val(c5) == f % 10);
    let s0 = seq![c0];
    let s1 = seq![c0, c1];
    let s2 = seq![c0, c1, c2];
    let s3 = seq![c0, c1, c2, c3];
    let s4 = seq![c0, c1, c2, c3, c4];
    let s5 = frac6_chars(f);
    assert(s0.drop_last() =~= Seq::<char>::empty());
    assert(s1.drop_last() =~= s0);
    assert(s2.drop_last() =~= s1);
    assert(s3.drop_last() =~= s2);
    assert(s4.drop_last() =~= s3);
    assert(s5.drop_last() =~= s4);
    assert(digits_val(Seq::<char>::empty()) == 0);
    assert(digits_val(s0) == digit_val(c0));
    assert(digits_val(s1) == digits_val(s0) * 10 + digit_val(c1));
    assert(digits_val(s2) == digits_val(s1) * 10 + digit_val(c2));
    assert(digits_val(s3) == digits_val(s2) * 10 + digit_val(c3));
    assert(digits_val(s4) == digits_val(s3) * 10 + digit_val(c4));
    assert(digits_val(s5) == digits_val(s4) * 10 + digit_val(c5));
    assert(f / 100000 < 10);
    assert((f / 100000) % 10 == f / 100000);
    assert(f / 100000 * 10 + (f / 10000) % 10 == f / 10000) by {
        assert(f / 10000 / 10 == f / 100000) by (nonlinear_arith);
        assert(f / 10000 == (f / 10000 / 10) * 10 + (f / 10000) % 10);
    }
    assert(f / 10000 * 10 + (f / 1000) % 10 == f / 1000) by {
        assert(f / 1000 / 10 == f / 10000) by (nonlinear_arith);
        assert(f / 1000 == (f / 1000 / 10) * 10 + (f / 1000) % 10);
    }
    assert(f / 1000 * 10 + (f / 100) % 10 == f / 100) by {
        assert(f / 100 / 10 == f / 1000) by (nonlinear_arith);
        assert(f / 100 == (f / 100 / 10) * 10 + (f / 100) % 10);
    }
    assert(f / 100 * 10 + (f / 10) % 10 == f / 10) by {
        assert(f / 10 / 10 == f / 100) by (nonlinear_arith);
        assert(f / 10 == (f / 10 / 10) * 10 + (f / 10) % 10);
    }
    assert(f / 10 * 10 + f % 10 == f);
}

/// Parses a fixed-point field back into micro-units: whole part, a dot, and
/// exactly six fractional digits.
pub open spec fn parse_micro(s: Seq<char>) -> Option<nat> {
    let parts = split_on(s, '.');
    if parts.len() == 2 && parts[0].len() >= 1 && parts[1].len() == 6 && all_digits(parts[0])
        && all_digits(parts[1]) {
        Some(digits_val(parts[0]) * 1000000 + digits_val(parts[1]))
    } else {
        None
    }
}

/// Parses one label line back into its five fields: a class identifier and
/// four fixed-point coordinates in micro-units.
pub open spec fn parse_line(s: Seq<char>) -> Option<(nat, nat, nat, nat, nat)> {
    let fields = split_on(s, ' ');
    if fields.len() == 5 && fields[0].len() >= 1 && all_digits(fields[0]) {
        match (parse_micro(fields[1]), parse_micro(fields[2]), parse_micro(fields[3]), parse_micro(
            fields[4],
        )) {
            (Some(cx), Some(cy), Some(w), Some(h)) => Some(
                (digits_val(fields[0]), cx, cy, w, h),
            ),
            _ => None,
        }
    } else {
        None
    }
}

pub proof fn lemma_micro_chars_no(m: nat, c: char)
    requires
        !is_dec_digit(c),
        c != '.',
    ensures
        forall|i: int| 0 <= i < micro_chars(m).len() ==> (#[trigger] micro_chars(m)[i]) != c,
{
    lemma_dec_chars_digits(m / 1000000);
    lemma_frac6_digits(m % 1000000);
    assert forall|i: int| 0 <= i < micro_chars(m).len() implies (#[trigger] micro_chars(m)[i])
        != c by {
        let d = dec_chars(m / 1000000);
        if i < d.len() {
            assert(micro_chars(m)[i] == d[i]);
        } else if i == d.len() {
            assert(micro_chars(m)[i] == '.');
        } else {
            assert(micro_chars(m)[i] == frac6_chars(m % 1000000)[i - d.len() - 1]);
        }
    }
}

/// Parsing a rendered fixed-point field restores the micro-unit value.
pub proof fn lemma_micro_round_trip(m: nat)
    ensures
        parse_micro(micro_chars(m)) == Some(m),
{
    let ip = m / 1000000;
    let fp = m % 1000000;
    lemma_dec_chars_digits(ip);
    lemma_frac6_digits(fp);
    assert forall|i: int| 0 <= i < dec_chars(ip).len() implies (#[trigger] dec_chars(ip)[i])
        != '.' by {
        assert(is_dec_digit(dec_chars(ip)[i]));
    }
    assert(micro_chars(m) =~= dec_chars(ip) + seq!['.'] + frac6_chars(fp));
    lemma_split_on_concat(dec_chars(ip), frac6_chars(fp), '.');
    assert forall|i: int| 0 <= i < frac6_chars(fp).len() implies (#[trigger] frac6_chars(fp)[i])
        != '.' by {
        assert(is_dec_digit(frac6_chars(fp)[i]));
    }
    lemma_split_on_nosep(frac6_chars(fp), '.');
    let parts = split_on(micro_chars(m), '.');
    assert(parts.len() == 2);
    assert(parts[0] == dec_chars(ip));
    assert(parts[1] == split_on(frac6_chars(fp), '.')[0]);
    assert(parts[1] == frac6_chars(fp));
    lemma_digits_val_dec_chars(ip);
    lemma_digits_val_frac6(fp);
    assert(ip * 1000000 + fp == m);
}

/// Formatting one annotation and parsing the line back restores every field
/// exactly: the round trip through the six-decimal format is lossless.
pub proof fn lemma_line_round_trip(a: Annotation)
    ensures
        parse_line(line_chars(a)) == Some(
            (a.class_id as nat, a.cx as nat, a.cy as nat, a.w as nat, a.h as nat),
        ),
{
    let cls = dec_chars(a.class_id as nat);
    let m1 = micro_chars(a.cx as nat);
    let m2 = micro_chars(a.cy as nat);
    let m3 = micro_chars(a.w as nat);
    let m4 = micro_chars(a.h as nat);
    lemma_dec_chars_digits(a.class_id as nat);
    assert forall|i: int| 0 <= i < cls.len() implies (#[trigger] cls[i]) != ' ' by {
        assert(is_dec_digit(cls[i]));
    }
    lemma_micro_chars_no(a.cx as nat, ' ');
    lemma_micro_chars_no(a.cy as nat, ' ');
    lemma_micro_chars_no(a.w as nat, ' ');
    lemma_micro_chars_no(a.h as nat, ' ');
    let t1 = m1 + seq![' '] + (m2 + seq![' '] + (m3 + seq![' '] + m4));
    assert(line_chars(a) =~= cls + seq![' '] + t1);
    lemma_split_on_concat(cls, t1, ' ');
    assert(m2 + seq![' '] + (m3 + seq![' '] + m4) =~= m2 + seq![' '] + (m3 + seq![' '] + m4));
    lemma_split_on_concat(m1, m2 + seq![' '] + (m3 + seq![' '] + m4), ' ');
    lemma_split_on_concat(m2, m3 + seq![' '] + m4, ' ');
    lemma_split_on_concat(m3, m4, ' ');
    lemma_split_on_nosep(m4, ' ');
    let fields = split_on(line_chars(a), ' ');
    assert(fields.len() == 5);
    assert(fields[0] == cls);
    assert(fields.drop_first() == split_on(t1, ' '));
    assert(fields[1] == split_on(t1, ' ')[0]);
    assert(fields[1] == m1);
    assert(fields[2] == split_on(t1, ' ').drop_first()[0]);
    assert(fields[2] == m2);
    assert(fields[3] == m3);
    assert(fields[4] == m4);
    lemma_digits_val_dec_chars(a.class_id as nat);
    lemma_micro_round_trip(a.cx as nat);
    lemma_micro_round_trip(a.cy as nat);
    lemma_micro_round_trip(a.w as nat);
    lemma_micro_round_trip(a.h as nat);
}

/// A label file can also be read off the front: the first line, a newline,
/// then the file for the remaining annotations.
pub proof fn lemma_labels_chars_front(anns: Seq<Annotation>)
    requires
        anns.len() > 0,
    ensures
        labels_chars(anns) == line_chars(anns[0]) + seq!['\n'] + labels_chars(anns.drop_first()),
    decreases anns.len(),
{
    if anns.len() == 1 {
        assert(anns.drop_last() =~= Seq::<Annotation>::empty());
        assert(anns.drop_first() =~= Seq::<Annotation>::empty());
        assert(labels_chars(anns) =~= line_chars(anns[0]) + seq!['\n'] + labels_chars(
            anns.drop_first(),
        ));
    } else {
        let head = anns.drop_last();
        lemma_labels_chars_front(head);
        assert(head[0] == anns[0]);
        assert(head.drop_first() =~= anns.drop_first().drop_last());
        assert(anns.drop_first().last() == anns.last());
        assert(labels_chars(anns) == labels_chars(head) + line_chars(anns.last()) + seq!['\n']);
        assert(labels_chars(anns.drop_first()) == labels_chars(anns.drop_first().drop_last())
            + line_chars(anns.last()) + seq!['\n']);
        assert(labels_chars(anns) =~= line_chars(anns[0]) + seq!['\n'] + labels_chars(
            anns.drop_first(),
        ));
    }
}

/// Splitting a rendered label file on newlines yields one field per
/// annotation — its rendered line, in order — and one final empty field for
/// the terminating newline.
pub proof fn lemma_labels_lines(anns: Seq<Annotation>)
    ensures
        split_on(labels_chars(anns), '\n').len() == anns.len() + 1,
        forall|i: int|
            0 <= i < anns.len() ==> split_on(labels_chars(anns), '\n')[i] == line_chars(
                #[trigger] anns[i],
            ),
        split_on(labels_chars(anns), '\n').last() == Seq::<char>::empty(),
    decreases anns.len(),
{
    if anns.len() == 0 {
        assert(labels_chars(anns).len() == 0);
    } else {
        lemma_labels_chars_front(anns);
        lemma_line_no_newline(anns[0]);
        lemma_split_on_concat(line_chars(anns[0]), labels_chars(anns.drop_first()), '\n');
        lemma_labels_lines(anns.drop_first());
        let fields = split_on(labels_chars(anns), '\n');
        let rest = split_on(labels_chars(anns.drop_first()), '\n');
        assert forall|i: int| 0 <= i < anns.len() implies fields[i] == line_chars(
            #[trigger] anns[i],
        ) by {
            if i > 0 {
                assert(fields[i] == fields.drop_first()[i - 1]);
                assert(rest[i - 1] == line_chars(anns.drop_first()[i - 1]));
            }
        }
        assert(fields.last() == fields.drop_first().last());
    }
}

/// The full round trip at file level: the rendered file has one line per
/// annotation, and every line parses back to its annotation's exact fields.
pub proof fn lemma_file_round_trip(anns: Seq<Annotation>)
    ensures
        split_on(labels_chars(anns), '\n').len() == anns.len() + 1,
        forall|i: int|
            0 <= i < anns.len() ==> parse_line(split_on(labels_chars(anns), '\n')[i]) == Some(
                (
                    ((#[trigger] anns[i]).class_id as nat),
                    anns[i].cx as nat,
                    anns[i].cy as nat,
                    anns[i].w as nat,
                    anns[i].h as nat,
                ),
            ),
{
    lemma_labels_lines(anns);
    assert forall|i: int| 0 <= i < anns.len() implies parse_line(
        split_on(labels_chars(anns), '\n')[i],
    ) == Some(
        (
            ((#[trigger] anns[i]).class_id as nat),
            anns[i].cx as nat,
            anns[i].cy as nat,
            anns[i].w as nat,
            anns[i].h as nat,
        ),
    ) by {
        lemma_line_round_trip(anns[i]);
    }
}

pub open spec fn newline_pred() -> spec_fn(char) -> bool {
    |c: char| c == '\n'
}

/// Newline characters in a rendered file; each line is newline-terminated,
/// so this is the file's line count.
pub open spec fn newline_count(s: Seq<char>) -> nat {
    s.filter(newline_pred()).len()
}

pub proof fn lemma_line_no_newline(a: Annotation)
    ensures
        forall|i: int| 0 <= i < line_chars(a).len() ==> (#[trigger] line_chars(a)[i]) != '\n',
{
    let cls = dec_chars(a.class_id as nat);
    lemma_dec_chars_digits(a.class_id as nat);
    lemma_micro_chars_no(a.cx as nat, '\n');
    lemma_micro_chars_no(a.cy as nat, '\n');
    lemma_micro_chars_no(a.w as nat, '\n');
    lemma_micro_chars_no(a.h as nat, '\n');
    assert forall|i: int| 0 <= i < line_chars(a).len() implies (#[trigger] line_chars(a)[i])
        != '\n' by {
        let s1 = cls;
        let s2 = s1 + seq![' '];
        let s3 = s2 + micro_chars(a.cx as nat);
        let s4 = s3 + seq![' '];
        let s5 = s4 + micro_chars(a.cy as nat);
        let s6 = s5 + seq![' '];
        let s7 = s6 + micro_chars(a.w as nat);
        let s8 = s7 + seq![' '];
        if i < s1.len() {
            assert(line_chars(a)[i] == cls[i]);
            assert(is_dec_digit(cls[i]));
        } else if i < s2.len() {
            assert(line_chars(a)[i] == ' ');
        } else if i < s3.len() {
            assert(line_chars(a)[i] == micro_chars(a.cx as nat)[i - s2.len()]);
        } else if i < s4.len() {
            assert(line_chars(a)[i] == ' ');
        } else if i < s5.len() {
            assert(line_chars(a)[i] == micro_chars(a.cy as nat)[i - s4.len()]);
        } else if i < s6.len() {
            assert(line_chars(a)[i] == ' ');
        } else if i < s7.len() {
            assert(line_chars(a)[i] == micro_chars(a.w as nat)[i - s6.len()]);
        } else if i < s8.len() {
            assert(line_chars(a)[i] == ' ');
        } else {
            assert(line_chars(a)[i] == micro_chars(a.h as nat)[i - s8.len()]);
        }
    }
}

/// The rendered label file has exactly one line per annotation: its newline
/// count equals the annotation count.
pub proof fn lemma_labels_line_count(anns: Seq<Annotation>)
    ensures
        newline_count(labels_chars(anns)) == anns.len(),
    decreases anns.len(),
{
    if anns.len() == 0 {
        crate::counting::lemma_filter_none(labels_chars(anns), newline_pred());
    } else {
        let head = labels_chars(anns.drop_last());
        let line = line_chars(anns.last());
        lemma_labels_line_count(anns.drop_last());
        Seq::<char>::filter_distributes_over_add(head + line, seq!['\n'], newline_pred());
        Seq::<char>::filter_distributes_over_add(head, line, newline_pred());
        lemma_line_no_newline(anns.last());
        crate::counting::lemma_filter_none(line, newline_pred());
        crate::counting::lemma_filter_full(seq!['\n'], newline_pred());
        assert(labels_chars(anns) == head + line + seq!['\n']);
    }
}

fn digit_lit(d: u32) -> (r: &'static str)
    requires
        d < 10,
    ensures
        r@ == seq![digit_char(d as nat)],
{
    let s = "0123456789";
    proof {
        reveal_strlit("0123456789");
    }
    let r = s.substring_char(d as usize, d as usize + 1);
    proof {
        assert(r@ =~= seq![digit_char(d as nat)]);
    }
    r
}

/// Appends the decimal digits of `n` to `s`.
fn push_dec(s: &mut String, n: u32)
    ensures
        final(s)@ == old(s)@ + dec_chars(n as nat),
    decreases n,
{
    if n >= 10 {
        push_dec(s, n / 10);
    }
    s.append(digit_lit(n % 10));
    proof {
        assert(final(s)@ =~= old(s)@ + dec_chars(n as nat));
    }
}

/// Appends the fixed-point rendering of `m` micro-units to `s`.
fn push_micro(s: &mut String, m: u32)
    ensures
        final(s)@ == old(s)@ + micro_chars(m as nat),
{
    push_dec(s, m / 1000000);
    s.append(".");
    let f = m % 1000000;
    s.append(digit_lit((f / 100000) % 10));
    s.append(digit_lit((f / 10000) % 10));
    s.append(digit_lit((f / 1000) % 10));
    s.append(digit_lit((f / 100) % 10));
    s.append(digit_lit((f / 10) % 10));
    s.append(digit_lit(f % 10));
    proof {
        reveal_strlit(".");
        assert(final(s)@ =~= old(s)@ + micro_chars(m as nat));
    }
}

/// Renders one annotation as its label line (without the newline).
pub fn render_line(a: &Annotation) -> (s: String)
    ensures
        s@ == line_chars(*a),
{
    let mut s = String::new();
    push_dec(&mut s, a.class_id);
    s.append(" ");
    push_micro(&mut s, a.cx);
    s.append(" ");
    push_micro(&mut s, a.cy);
    s.append(" ");
    push_micro(&mut s, a.w);
    s.append(" ");
    push_micro(&mut s, a.h);
    proof {
        reveal_strlit(" ");
        assert(s@ =~= line_chars(*a));
    }
    s
}

/// Renders the full label file content for a sequence of annotations: one
/// newline-terminated line per annotation.
pub fn render_labels(anns: &Vec<Annotation>) -> (s: String)
    ensures
        s@ == labels_chars(anns@),
{
    let mut s = String::new();
    let mut i: usize = 0;
    while i < anns.len()
        invariant
            i <= anns.len(),
            s@ == labels_chars(anns@.take(i as int)),
        decreases anns.len() - i,
    {
        let line = render_line(&anns[i]);
        s.append(line.as_str());
        s.append("\n");
        proof {
            reveal_strlit("\n");
            assert(anns@.take(i + 1 as int).drop_last() =~= anns@.take(i as int));
            assert(anns@.take(i + 1 as int).last() == anns@[i as int]);
            assert(s@ =~= labels_chars(anns@.take(i + 1 as int)));
        }
        i = i + 1;
    }
    proof {
        assert(anns@.take(anns@.len() as int) =~= anns@);
    }
    s
}

} // verus!
