//! Writing numbers, and filling in templates.
use vstd::prelude::*;
use vstd::string::StringExecFns;
use vstd::string::StrSliceExecFns;

verus! {

/// The character of a digit.
pub open spec fn digit(d: int) -> char {
    if d == 0 {
        '0'
    } else if d == 1 {
        '1'
    } else if d == 2 {
        '2'
    } else if d == 3 {
        '3'
    } else if d == 4 {
        '4'
    } else if d == 5 {
        '5'
    } else if d == 6 {
        '6'
    } else if d == 7 {
        '7'
    } else if d == 8 {
        '8'
    } else {
        '9'
    }
}

/// A number in decimal, without leading zeros.
pub open spec fn dec(n: int) -> Seq<char>
    decreases n,
{
    if n < 10 {
        seq![digit(n)]
    } else {
        dec(n / 10).push(digit(n % 10))
    }
}

/// Numbers with the same decimal text are equal.
pub proof fn law_dec_injective(m: int, n: int)
    requires
        m >= 0,
        n >= 0,
        dec(m) == dec(n),
    ensures
        m == n,
    decreases m,
{
    lemma_dec_len(m);
    lemma_dec_len(n);
    if m >= 10 && n >= 10 {
        assert(dec(m).drop_last() =~= dec(m / 10));
        assert(dec(n).drop_last() =~= dec(n / 10));
        law_dec_injective(m / 10, n / 10);
        assert(dec(m).last() == digit(m % 10));
        assert(dec(n).last() == digit(n % 10));
    } else if m < 10 && n < 10 {
        assert(dec(m)[0] == digit(m));
        assert(dec(n)[0] == digit(n));
    } else if m < 10 {
        lemma_dec_len(n / 10);
        assert(dec(n).len() == dec(n / 10).len() + 1);
        assert(dec(m).len() == 1);
    } else {
        lemma_dec_len(m / 10);
        assert(dec(m).len() == dec(m / 10).len() + 1);
        assert(dec(n).len() == 1);
    }
}

proof fn lemma_dec_len(n: int)
    ensures
        dec(n).len() >= 1,
    decreases n,
{
    if n >= 10 {
        lemma_dec_len(n / 10);
    }
}

fn digit_text(d: u64) -> (r: &'static str)
    requires
        d < 10,
    ensures
        r@ == seq![digit(d as int)],
{
    proof {
        reveal_strlit("0");
        reveal_strlit("1");
        reveal_strlit("2");
        reveal_strlit("3");
        reveal_strlit("4");
        reveal_strlit("5");
        reveal_strlit("6");
        reveal_strlit("7");
        reveal_strlit("8");
        reveal_strlit("9");
    }
    let r = if d == 0 {
        "0"
    } else if d == 1 {
        "1"
    } else if d == 2 {
        "2"
    } else if d == 3 {
        "3"
    } else if d == 4 {
        "4"
    } else if d == 5 {
        "5"
    } else if d == 6 {
        "6"
    } else if d == 7 {
        "7"
    } else if d == 8 {
        "8"
    } else {
        "9"
    };
    assert(r@ =~= seq![digit(d as int)]);
    r
}

/// Append a number in decimal.
pub fn push_dec(out: &mut String, n: u64)
    ensures
        final(out)@ == old(out)@ + dec(n as int),
    decreases n,
{
    if n >= 10 {
        push_dec(out, n / 10);
    }
    out.append(digit_text(n % 10));
    proof {
        if n >= 10 {
            assert(out@ =~= old(out)@ + dec(n as int / 10).push(digit(n as int % 10)));
        } else {
            assert(out@ =~= old(out)@ + dec(n as int));
        }
    }
}

/// A number in decimal.
pub fn decimal(n: u64) -> (r: String)
    ensures
        r@ == dec(n as int),
{
    let mut out = String::new();
    push_dec(&mut out, n);
    assert(out@ =~= dec(n as int));
    out
}

/// The position in the argument list that the letter after a `$` stands for.
pub open spec fn slot(c: char) -> int {
    c as int - 'a' as int
}

/// The template from position `i` on, with each `$` and the letter after it
/// replaced: `$a` by the first argument, `$b` by the second, and so on.
pub open spec fn filled_from(t: Seq<char>, args: Seq<Seq<char>>, i: int) -> Seq<char>
    decreases t.len() - i,
{
    if i < 0 || i >= t.len() {
        Seq::empty()
    } else if t[i] == '$' && i + 1 < t.len() && 0 <= slot(t[i + 1]) < args.len() {
        args[slot(t[i + 1])] + filled_from(t, args, i + 2)
    } else {
        seq![t[i]] + filled_from(t, args, i + 1)
    }
}

/// The template with its arguments filled in.
pub open spec fn filled(t: Seq<char>, args: Seq<Seq<char>>) -> Seq<char> {
    filled_from(t, args, 0)
}

/// A template copies what is not a place.
proof fn lemma_literal(t: Seq<char>, args: Seq<Seq<char>>, i: int, part: Seq<char>)
    requires
        0 <= i,
        i + part.len() <= t.len(),
        t.subrange(i, i + part.len()) == part,
        forall|k: int| 0 <= k < part.len() ==> #[trigger] part[k] != '$',
    ensures
        filled_from(t, args, i) == part + filled_from(t, args, i + part.len()),
    decreases part.len(),
{
    let end = filled_from(t, args, i + part.len());
    if part.len() == 0 {
        assert(part + end =~= end);
    } else {
        let rest = part.skip(1);
        assert(t.subrange(i, i + part.len())[0] == t[i]);
        assert(t.subrange(i + 1, i + 1 + rest.len()) =~= rest) by {
            assert forall|k: int| 0 <= k < rest.len() implies t[i + 1 + k] == rest[k] by {
                assert(t.subrange(i, i + part.len())[k + 1] == part[k + 1]);
            }
        }
        lemma_literal(t, args, i + 1, rest);
        assert(part[0] != '$');
        assert(part + end =~= seq![t[i]] + (rest + end));
    }
}

/// One more piece of a template that is no place.
pub proof fn lemma_copied(t: Seq<char>, args: Seq<Seq<char>>, from: int, done: Seq<char>, i: int, part: Seq<char>)
    requires
        filled_from(t, args, from) == done + filled_from(t, args, i),
        0 <= i,
        i + part.len() <= t.len(),
        t.subrange(i, i + part.len()) == part,
        forall|k: int| 0 <= k < part.len() ==> #[trigger] part[k] != '$',
    ensures
        filled_from(t, args, from) == done + part + filled_from(t, args, i + part.len()),
{
    lemma_literal(t, args, i, part);
    assert(done + (part + filled_from(t, args, i + part.len())) =~= done + part + filled_from(t, args, i + part.len()));
}

/// One more place of a template.
pub proof fn lemma_placed(t: Seq<char>, args: Seq<Seq<char>>, from: int, done: Seq<char>, i: int, k: int)
    requires
        filled_from(t, args, from) == done + filled_from(t, args, i),
        0 <= i,
        i + 1 < t.len(),
        t[i] == '$',
        slot(t[i + 1]) == k,
        0 <= k < args.len(),
    ensures
        filled_from(t, args, from) == done + args[k] + filled_from(t, args, i + 2),
{
    assert(done + (args[k] + filled_from(t, args, i + 2)) =~= done + args[k] + filled_from(t, args, i + 2));
}

/// A list of texts begins with its first text.
pub proof fn lemma_joined_lead(ts: Seq<Seq<char>>, sep: Seq<char>) -> (rest: Seq<char>)
    requires
        ts.len() > 0,
    ensures
        joined(ts, sep) == ts[0] + rest,
    decreases ts.len(),
{
    if ts.len() == 1 {
        assert(ts[0] + Seq::<char>::empty() =~= ts[0]);
        Seq::empty()
    } else {
        let r = lemma_joined_lead(ts.drop_last(), sep);
        let rest = r + sep + ts.last();
        assert(ts[0] + r + sep + ts.last() =~= ts[0] + rest);
        rest
    }
}

/// No letter is a digit.
proof fn lemma_dec_digits(n: int, i: int)
    requires
        n >= 0,
        0 <= i < dec(n).len(),
    ensures
        dec(n)[i] != 'u',
    decreases n,
{
    if n >= 10 {
        if i < dec(n / 10).len() {
            lemma_dec_digits(n / 10, i);
        }
    }
}

/// Texts that begin with different numbers are different.
pub proof fn lemma_same_lead(head: Seq<char>, m: int, r: Seq<char>, n: int, s: Seq<char>)
    requires
        m >= 0,
        n >= 0,
        head + dec(m) + "ull"@ + r == head + dec(n) + "ull"@ + s,
    ensures
        m == n,
{
    reveal_strlit("ull");
    let a = head + dec(m) + "ull"@ + r;
    let b = head + dec(n) + "ull"@ + s;
    let h = head.len() as int;
    let x = dec(m).len() as int;
    let y = dec(n).len() as int;
    if x < y {
        assert(a[h + x] == 'u');
        assert(b[h + x] == dec(n)[x]);
        lemma_dec_digits(n, x);
    } else if y < x {
        assert(b[h + y] == 'u');
        assert(a[h + y] == dec(m)[y]);
        lemma_dec_digits(m, y);
    } else {
        assert(a.subrange(h, h + x) =~= dec(m));
        assert(b.subrange(h, h + x) =~= dec(n));
        law_dec_injective(m, n);
    }
}

/// A template is filled up to a point, and from there on.
pub proof fn lemma_reached(t: Seq<char>, args: Seq<Seq<char>>, i: int) -> (before: Seq<char>)
    requires
        0 < i <= t.len(),
        t[i - 1] != '$',
    ensures
        filled(t, args) == before + filled_from(t, args, i),
{
    lemma_reached_from(t, args, 0, i)
}

proof fn lemma_reached_from(t: Seq<char>, args: Seq<Seq<char>>, k: int, i: int) -> (before: Seq<char>)
    requires
        0 <= k <= i <= t.len(),
        0 < i,
        t[i - 1] != '$',
    ensures
        filled_from(t, args, k) == before + filled_from(t, args, i),
    decreases i - k,
{
    let end = filled_from(t, args, i);
    if k == i {
        assert(Seq::<char>::empty() + end =~= end);
        Seq::empty()
    } else if t[k] == '$' && k + 1 < t.len() && 0 <= slot(t[k + 1]) < args.len() {
        let rest = lemma_reached_from(t, args, k + 2, i);
        let a = args[slot(t[k + 1])];
        assert(a + (rest + end) =~= (a + rest) + end);
        a + rest
    } else {
        let rest = lemma_reached_from(t, args, k + 1, i);
        assert(seq![t[k]] + (rest + end) =~= (seq![t[k]] + rest) + end);
        seq![t[k]] + rest
    }
}

/// The texts of a list of strings.
pub open spec fn texts(args: Seq<String>) -> Seq<Seq<char>> {
    Seq::new(args.len(), |i: int| args[i]@)
}

/// Append a template with its arguments filled in.
pub fn push_filled(out: &mut String, template: &str, args: &[String])
    ensures
        final(out)@ == old(out)@ + filled(template@, texts(args@)),
{
    let ghost t = template@;
    let ghost ts = texts(args@);
    let ghost start = out@;
    let n: usize = template.unicode_len();
    let mut i: usize = 0;
    // Characters from `plain` to `i` are waiting to be copied.
    let mut plain: usize = 0;
    while i < n
        invariant
            n == t.len(),
            t == template@,
            ts == texts(args@),
            plain <= i <= n,
            start + filled(t, ts) == out@ + t.subrange(plain as int, i as int) + filled_from(t, ts, i as int),
        decreases n - i,
    {
        let c: char = template.get_char(i);
        let ghost before = out@;
        let ghost rest = filled_from(t, ts, i as int);
        if c == '$' && i + 1 < n {
            let k: char = template.get_char(i + 1);
            let code: u32 = k as u32;
            if code >= 97 && ((code - 97) as usize) < args.len() {
                let arg: usize = (code - 97) as usize;
                out.append(template.substring_char(plain, i));
                out.append(args[arg].as_str());
                proof {
                    assert(slot(t[i + 1]) == arg);
                    assert(rest == ts[arg as int] + filled_from(t, ts, i + 2));
                    assert(ts[arg as int] == args@[arg as int]@);
                    assert(t.subrange(i + 2, i + 2) =~= Seq::<char>::empty());
                    assert(before + t.subrange(plain as int, i as int) + rest =~= out@ + t.subrange(i + 2, i + 2)
                        + filled_from(t, ts, i + 2));
                }
                i = i + 2;
                plain = i;
                continue;
            }
        }
        proof {
            assert(rest == seq![t[i as int]] + filled_from(t, ts, i + 1));
            assert(t.subrange(plain as int, i + 1) =~= t.subrange(plain as int, i as int) + seq![t[i as int]]);
            assert(before + t.subrange(plain as int, i as int) + rest =~= out@ + t.subrange(plain as int, i + 1)
                + filled_from(t, ts, i + 1));
        }
        i = i + 1;
    }
    out.append(template.substring_char(plain, n));
    assert(start + filled(t, ts) =~= out@);
}

/// The texts of a list, with a separator between them.
pub open spec fn joined(ts: Seq<Seq<char>>, sep: Seq<char>) -> Seq<char>
    decreases ts.len(),
{
    if ts.len() == 0 {
        Seq::empty()
    } else if ts.len() == 1 {
        ts[0]
    } else {
        joined(ts.drop_last(), sep) + sep + ts.last()
    }
}

/// Join strings with a separator.
pub fn join(items: &[String], sep: &str) -> (r: String)
    ensures
        r@ == joined(texts(items@), sep@),
{
    let ghost ts = texts(items@);
    let mut out = String::new();
    let mut i: usize = 0;
    assert(joined(ts.take(0), sep@) =~= Seq::<char>::empty());
    while i < items.len()
        invariant
            i <= items@.len(),
            ts == texts(items@),
            out@ == joined(ts.take(i as int), sep@),
        decreases items.len() - i,
    {
        let ghost next = ts.take(i + 1);
        proof {
            assert(next.drop_last() =~= ts.take(i as int));
            assert(next.last() == items@[i as int]@);
            assert(next.len() == i + 1);
        }
        if i > 0 {
            out.append(sep);
        }
        out.append(items[i].as_str());
        proof {
            if i == 0 {
                assert(out@ =~= next[0]);
            } else {
                assert(out@ =~= joined(ts.take(i as int), sep@) + sep@ + next.last());
            }
        }
        i = i + 1;
    }
    assert(ts.take(i as int) =~= ts);
    out
}


// ----- templates with named places -----

/// The key stands in the text at position `i`.
pub open spec fn stands(t: Seq<char>, key: Seq<char>, i: int) -> bool {
    0 < key.len() && 0 <= i && i + key.len() <= t.len() && t.subrange(i, i + key.len()) == key
}

/// The text from position `i` on, with the key replaced by the value wherever
/// it stands, from the left and without overlaps.
pub open spec fn replaced_from(t: Seq<char>, key: Seq<char>, value: Seq<char>, i: int) -> Seq<char>
    decreases t.len() - i,
{
    if i < 0 || i >= t.len() {
        Seq::empty()
    } else if stands(t, key, i) {
        value + replaced_from(t, key, value, i + key.len())
    } else {
        seq![t[i]] + replaced_from(t, key, value, i + 1)
    }
}

/// The text with the key replaced by the value.
pub open spec fn replaced(t: Seq<char>, key: Seq<char>, value: Seq<char>) -> Seq<char> {
    replaced_from(t, key, value, 0)
}

/// The key stands somewhere in the text.
pub open spec fn occurs(t: Seq<char>, key: Seq<char>) -> bool {
    exists|i: int| #[trigger] stands(t, key, i)
}

/// The characters of a text.
pub fn chars_of(s: &str) -> (r: Vec<char>)
    ensures
        r@ == s@,
{
    let mut r: Vec<char> = Vec::new();
    for c in it: s.chars()
        invariant
            r@ == it.seq().take(it.index()),
            it.seq() == s@,
    {
        r.push(c);
        assert(it.seq().take(it.index() + 1) =~= it.seq().take(it.index()).push(c));
    }
    assert(r@ =~= s@);
    r
}

fn key_stands(t: &Vec<char>, key: &Vec<char>, i: usize) -> (r: bool)
    requires
        i <= t@.len(),
    ensures
        r == stands(t@, key@, i as int),
{
    let n: usize = t.len();
    if key.len() == 0 || n - i < key.len() {
        return false;
    }
    let mut k: usize = 0;
    while k < key.len()
        invariant
            k <= key@.len(),
            n == t@.len(),
            0 < key@.len(),
            i + key@.len() <= t@.len(),
            forall|j: int| 0 <= j < k ==> t@[i + j] == #[trigger] key@[j],
        decreases key.len() - k,
    {
        if t[i + k] != key[k] {
            assert(t@.subrange(i as int, i + key@.len())[k as int] != key@[k as int]);
            return false;
        }
        k = k + 1;
    }
    assert(t@.subrange(i as int, i + key@.len()) =~= key@);
    true
}

/// The texts of lists of characters.
pub open spec fn words(v: Seq<Vec<char>>) -> Seq<Seq<char>> {
    Seq::new(v.len(), |i: int| v[i]@)
}

/// Whether a key stands somewhere in a text.
pub fn holds_key(t: &Vec<char>, key: &Vec<char>) -> (r: bool)
    ensures
        r == occurs(t@, key@),
{
    let mut i: usize = 0;
    while i < t.len()
        invariant
            i <= t@.len(),
            forall|j: int| 0 <= j < i ==> !#[trigger] stands(t@, key@, j),
        decreases t.len() - i,
    {
        if key_stands(t, key, i) {
            assert(stands(t@, key@, i as int));
            return true;
        }
        i = i + 1;
    }
    false
}

/// The text with the key replaced by the value. Its characters come with it.
pub fn replace(text: &str, t: &Vec<char>, key: &Vec<char>, value: &str) -> (r: String)
    requires
        t@ == text@,
    ensures
        r@ == replaced(text@, key@, value@),
{
    let ghost tv = text@;
    let ghost kv = key@;
    let ghost vv = value@;
    let n: usize = t.len();
    let len: usize = key.len();
    let mut out = String::new();
    let mut i: usize = 0;
    // Characters from `plain` to `i` are waiting to be copied.
    let mut plain: usize = 0;
    assert(replaced(tv, kv, vv) =~= out@ + tv.subrange(0, 0) + replaced_from(tv, kv, vv, 0));
    while i < n
        invariant
            n == tv.len(),
            tv == text@,
            tv == t@,
            kv == key@,
            vv == value@,
            len == kv.len(),
            plain <= i <= n,
            replaced(tv, kv, vv) == out@ + tv.subrange(plain as int, i as int) + replaced_from(tv, kv, vv, i as int),
        decreases n - i,
    {
        let ghost before = out@;
        let ghost rest = replaced_from(tv, kv, vv, i as int);
        if key_stands(t, key, i) {
            out.append(text.substring_char(plain, i));
            out.append(value);
            proof {
                assert(rest == vv + replaced_from(tv, kv, vv, i + len));
                assert(tv.subrange(i + len, i + len) =~= Seq::<char>::empty());
                assert(before + tv.subrange(plain as int, i as int) + rest =~= out@ + tv.subrange(i + len, i + len)
                    + replaced_from(tv, kv, vv, i + len));
            }
            i = i + len;
            plain = i;
        } else {
            proof {
                assert(rest == seq![tv[i as int]] + replaced_from(tv, kv, vv, i + 1));
                assert(tv.subrange(plain as int, i + 1) =~= tv.subrange(plain as int, i as int) + seq![tv[i as int]]);
                assert(before + tv.subrange(plain as int, i as int) + rest =~= out@ + tv.subrange(plain as int, i + 1)
                    + replaced_from(tv, kv, vv, i + 1));
            }
            i = i + 1;
        }
    }
    out.append(text.substring_char(plain, n));
    assert(replaced(tv, kv, vv) =~= out@);
    out
}

} // verus!
