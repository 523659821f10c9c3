use vstd::prelude::*;

verus! {

/// Relies on `String::push`: appends the given character to the end of the
/// string, which vstd does not specify.
#[verifier::external_body]
pub(crate) fn push_char(s: &mut String, c: char)
    ensures
        final(s)@ == old(s)@.push(c),
{
    s.push(c);
}

/// Normalization of one character of a strain name: ASCII upper-case letters
/// are folded to lower case and hyphens become spaces, so that cosmetically
/// different renderings of the same name ("Blue-Dream", "blue dream") agree.
/// Every other character is kept as it is.
pub open spec fn norm_char(c: char) -> char {
    if c == '-' {
        ' '
    } else if 65 <= c as u32 && c as u32 <= 90 {
        ((c as u32 + 32) as u8) as char
    } else {
        c
    }
}

/// A whole name, normalized character by character.
pub open spec fn norm_seq(s: Seq<char>) -> Seq<char> {
    s.map_values(|c: char| norm_char(c))
}

fn norm_char_exec(c: char) -> (r: char)
    ensures
        r == norm_char(c),
{
    if c == '-' {
        ' '
    } else {
        let u = c as u32;
        if 65 <= u && u <= 90 {
            ((u + 32) as u8) as char
        } else {
            c
        }
    }
}

/// The normalized form of a strain name: the grouping key of the aggregator.
pub fn normalize_name(name: &str) -> (r: String)
    ensures
        r@ == norm_seq(name@),
{
    let n = name.unicode_len();
    let mut out = String::new();
    let mut i: usize = 0;
    while i < n
        invariant
            n == name@.len(),
            i <= n,
            out@ == norm_seq(name@.subrange(0, i as int)),
        decreases n - i,
    {
        let c = name.get_char(i);
        push_char(&mut out, norm_char_exec(c));
        proof {
            assert(norm_seq(name@.subrange(0, i + 1 as int)) =~= norm_seq(
                name@.subrange(0, i as int),
            ).push(norm_char(name@[i as int])));
        }
        i += 1;
    }
    proof {
        assert(name@.subrange(0, n as int) =~= name@);
    }
    out
}

/// Views of a vector of strings.
pub open spec fn tviews(ts: Seq<String>) -> Seq<Seq<char>> {
    ts.map_values(|t: String| t@)
}

// ---------------------------------------------------------------------------
// Query tokenization.
// ---------------------------------------------------------------------------

/// The whitespace that separates query tokens.
pub open spec fn is_space(c: char) -> bool {
    c == ' ' || c == '\t' || c == '\n' || c == '\r'
}

fn is_space_exec(c: char) -> (r: bool)
    ensures
        r == is_space(c),
{
    c == ' ' || c == '\t' || c == '\n' || c == '\r'
}

/// The maximal whitespace-free words of a string, in order.
pub open spec fn tokens_of(s: Seq<char>) -> Seq<Seq<char>>
    decreases s.len(),
{
    if s.len() == 0 {
        Seq::empty()
    } else {
        let rest = tokens_of(s.drop_last());
        let c = s.last();
        if is_space(c) {
            rest
        } else if s.len() >= 2 && !is_space(s[s.len() - 2]) {
            rest.update(rest.len() - 1, rest.last().push(c))
        } else {
            rest.push(seq![c])
        }
    }
}

/// Splits a query on whitespace.  An empty or whitespace-only query yields
/// no tokens, which is how an invalid query is recognized before any
/// source is asked.
pub fn tokenize(q: &str) -> (r: Vec<String>)
    ensures
        tviews(r@) == tokens_of(q@),
{
    let n = q.unicode_len();
    let mut toks: Vec<String> = Vec::new();
    let mut cur = String::new();
    let mut i: usize = 0;
    while i < n
        invariant
            n == q@.len(),
            i <= n,
            cur@.len() == 0 ==> (i == 0 || is_space(q@[i as int - 1])) && tviews(toks@)
                == tokens_of(q@.subrange(0, i as int)),
            cur@.len() > 0 ==> i > 0 && !is_space(q@[i as int - 1]) && tviews(toks@).push(cur@)
                == tokens_of(q@.subrange(0, i as int)),
        decreases n - i,
    {
        let c = q.get_char(i);
        let ghost prefix = q@.subrange(0, i as int);
        proof {
            assert(q@.subrange(0, i + 1 as int).drop_last() =~= prefix);
            assert(q@.subrange(0, i + 1 as int).last() == q@[i as int]);
        }
        if is_space_exec(c) {
            if !cur.as_str().is_empty() {
                toks.push(cur);
                cur = String::new();
                proof {
                    assert(tviews(toks@) =~~= tokens_of(q@.subrange(0, i + 1 as int)));
                }
            }
        } else {
            if cur.as_str().is_empty() {
                push_char(&mut cur, c);
                proof {
                    assert(cur@ =~= seq![q@[i as int]]);
                    assert(tviews(toks@).push(cur@) =~~= tokens_of(q@.subrange(0, i + 1 as int)));
                }
            } else {
                let ghost cur0 = cur@;
                push_char(&mut cur, c);
                proof {
                    let rest = tokens_of(prefix);
                    assert(rest == tviews(toks@).push(cur0));
                    assert(rest.len() == tviews(toks@).len() + 1);
                    assert(rest.last() == cur0);
                    assert(rest.update(rest.len() - 1, rest.last().push(q@[i as int])) =~~= tviews(
                        toks@,
                    ).push(cur0.push(q@[i as int])));
                    assert(tviews(toks@).push(cur@) =~~= tokens_of(q@.subrange(0, i + 1 as int)));
                }
            }
        }
        i += 1;
    }
    proof {
        assert(q@.subrange(0, n as int) =~= q@);
    }
    if !cur.as_str().is_empty() {
        toks.push(cur);
        proof {
            assert(tviews(toks@) =~~= tokens_of(q@));
        }
    } else {
        proof {
            assert(tviews(toks@) =~~= tokens_of(q@));
        }
    }
    toks
}

// ---------------------------------------------------------------------------
// Substring matching: which listings answer the query.
// ---------------------------------------------------------------------------

/// `p` occurs in `s` starting at position `i`.
pub open spec fn contains_at(s: Seq<char>, p: Seq<char>, i: int) -> bool {
    0 <= i && i + p.len() <= s.len() && s.subrange(i, i + p.len() as int) == p
}

/// `p` occurs somewhere in `s`.
pub open spec fn contains_seq(s: Seq<char>, p: Seq<char>) -> bool {
    exists|i: int| contains_at(s, p, i)
}

fn match_at(s: &str, p: &str, i: usize) -> (r: bool)
    requires
        i + p@.len() <= s@.len(),
    ensures
        r == contains_at(s@, p@, i as int),
{
    let n = s.unicode_len();
    let m = p.unicode_len();
    let mut k: usize = 0;
    while k < m
        invariant
            n == s@.len(),
            m == p@.len(),
            i + m <= s@.len(),
            k <= m,
            forall|t: int| 0 <= t < k ==> s@[i + t] == p@[t],
        decreases m - k,
    {
        if s.get_char(i + k) != p.get_char(k) {
            proof {
                if contains_at(s@, p@, i as int) {
                    assert(s@.subrange(i as int, i + p@.len() as int)[k as int] == p@[k as int]);
                }
            }
            return false;
        }
        k += 1;
    }
    proof {
        assert(s@.subrange(i as int, i + m as int) =~= p@);
    }
    true
}

/// Whether the needle occurs in the haystack, as the sources' listings are
/// matched against query tokens.
pub fn contains_str(s: &str, p: &str) -> (r: bool)
    ensures
        r == contains_seq(s@, p@),
{
    let n = s.unicode_len();
    let m = p.unicode_len();
    if m > n {
        proof {
            if contains_seq(s@, p@) {
                let w = choose|i: int| contains_at(s@, p@, i);
                assert(w + p@.len() <= s@.len());
            }
        }
        return false;
    }
    if m == 0 {
        proof {
            assert(s@.subrange(0, 0) =~= p@);
            assert(contains_at(s@, p@, 0));
        }
        return true;
    }
    let mut i: usize = 0;
    while i <= n - m
        invariant
            n == s@.len(),
            m == p@.len(),
            1 <= m <= n,
            i <= n - m + 1,
            forall|j: int| 0 <= j < i ==> !contains_at(s@, p@, j),
        decreases n - m - i + 1,
    {
        if match_at(s, p, i) {
            return true;
        }
        i += 1;
    }
    proof {
        if contains_seq(s@, p@) {
            let w = choose|i: int| contains_at(s@, p@, i);
            assert(!contains_at(s@, p@, w));
        }
    }
    false
}

/// The name matches the query: every token occurs in it.
pub open spec fn matches_all(name: Seq<char>, terms: Seq<Seq<char>>) -> bool {
    forall|i: int| 0 <= i < terms.len() ==> contains_seq(name, #[trigger] terms[i])
}

/// Whether a (normalized) name contains every query token, the filter both
/// sources apply to their raw search results.
pub fn contains_all_terms(name: &str, terms: &Vec<String>) -> (r: bool)
    ensures
        r == matches_all(name@, tviews(terms@)),
{
    let mut i: usize = 0;
    while i < terms.len()
        invariant
            i <= terms@.len(),
            forall|j: int| 0 <= j < i ==> contains_seq(name@, #[trigger] tviews(terms@)[j]),
        decreases terms@.len() - i,
    {
        if !contains_str(name, terms[i].as_str()) {
            proof {
                assert(tviews(terms@)[i as int] == terms@[i as int]@);
            }
            return false;
        }
        i += 1;
    }
    true
}

// ---------------------------------------------------------------------------
// Decimal parsing: review counts and ratings reach the library as text.
// ---------------------------------------------------------------------------

/// An ASCII decimal digit.
pub open spec fn is_digit(c: char) -> bool {
    48 <= c as u32 && c as u32 <= 57
}

/// Numeric value of one digit.
pub open spec fn digit_val(c: char) -> int {
    c as u32 - 48
}

/// Every character is a digit.
pub open spec fn all_digits(s: Seq<char>) -> bool {
    forall|i: int| 0 <= i < s.len() ==> is_digit(#[trigger] s[i])
}

/// Value of a digit string read in base ten.
pub open spec fn digits_val(s: Seq<char>) -> int
    decreases s.len(),
{
    if s.len() == 0 {
        0
    } else {
        digits_val(s.drop_last()) * 10 + digit_val(s.last())
    }
}

proof fn lemma_digits_val_nonneg(s: Seq<char>)
    requires
        all_digits(s),
    ensures
        digits_val(s) >= 0,
    decreases s.len(),
{
    if s.len() > 0 {
        assert(all_digits(s.drop_last())) by {
            assert(forall|i: int| 0 <= i < s.len() - 1 ==> s.drop_last()[i] == s[i]);
        }
        lemma_digits_val_nonneg(s.drop_last());
    }
}

proof fn lemma_digits_val_mono(s: Seq<char>, i: int)
    requires
        all_digits(s),
        0 <= i <= s.len(),
    ensures
        digits_val(s.subrange(0, i)) <= digits_val(s),
    decreases s.len() - i,
{
    if i < s.len() {
        let a = s.subrange(0, i);
        let b = s.subrange(0, i + 1);
        assert(b.drop_last() =~= a);
        assert(all_digits(a)) by {
            assert(forall|j: int| 0 <= j < i ==> a[j] == s[j]);
        }
        lemma_digits_val_nonneg(a);
        assert(digits_val(b) == digits_val(a) * 10 + digit_val(s[i]));
        lemma_digits_val_mono(s, i + 1);
    } else {
        assert(s.subrange(0, i) =~= s);
    }
}

/// Reads a decimal review count, as both sources print one.  Returns the
/// value exactly when the text is one or more digits whose value fits.
pub fn parse_u32(s: &str) -> (r: Option<u32>)
    ensures
        match r {
            Some(v) => s@.len() > 0 && all_digits(s@) && v as int == digits_val(s@),
            None => s@.len() == 0 || !all_digits(s@) || digits_val(s@) > u32::MAX as int,
        },
{
    let n = s.unicode_len();
    if n == 0 {
        return None;
    }
    let mut acc: u64 = 0;
    let mut i: usize = 0;
    while i < n
        invariant
            n == s@.len(),
            i <= n,
            all_digits(s@.subrange(0, i as int)),
            acc as int == digits_val(s@.subrange(0, i as int)),
            acc <= u32::MAX as u64,
        decreases n - i,
    {
        let c = s.get_char(i);
        let u = c as u32;
        if u < 48 || u > 57 {
            proof {
                assert(!is_digit(s@[i as int]));
            }
            return None;
        }
        let d = (u - 48) as u64;
        proof {
            assert(s@.subrange(0, i + 1 as int).drop_last() =~= s@.subrange(0, i as int));
            assert(s@.subrange(0, i + 1 as int).last() == s@[i as int]);
            assert(all_digits(s@.subrange(0, i + 1 as int))) by {
                assert(forall|j: int|
                    0 <= j < i + 1 ==> s@.subrange(0, i + 1 as int)[j] == s@[j]);
            }
        }
        let newacc = acc * 10 + d;
        if newacc > u32::MAX as u64 {
            proof {
                if all_digits(s@) {
                    lemma_digits_val_mono(s@, i + 1);
                }
            }
            return None;
        }
        acc = newacc;
        i += 1;
    }
    proof {
        assert(s@.subrange(0, n as int) =~= s@);
    }
    Some(acc as u32)
}

// ---------------------------------------------------------------------------
// Ratings: decimal fractions read into thousandths of a point.
// ---------------------------------------------------------------------------

/// Index of the first '.', or the length when there is none.
pub open spec fn dot_pos(s: Seq<char>) -> int
    decreases s.len(),
{
    if s.len() == 0 {
        0
    } else if s[0] == '.' {
        0
    } else {
        1 + dot_pos(s.drop_first())
    }
}

/// Value in thousandths of the digits behind the dot; digits beyond the
/// third carry no weight (the value is truncated, not rounded).
pub open spec fn frac_milli(f: Seq<char>) -> int {
    (if f.len() >= 1 {
        digit_val(f[0]) * 100
    } else {
        0
    }) + (if f.len() >= 2 {
        digit_val(f[1]) * 10
    } else {
        0
    }) + (if f.len() >= 3 {
        digit_val(f[2])
    } else {
        0
    })
}

/// The texts accepted as a rating: one or more digits, optionally followed
/// by a dot and further digits.
pub open spec fn rating_text_ok(s: Seq<char>) -> bool {
    let d = dot_pos(s);
    &&& d >= 1
    &&& all_digits(s.subrange(0, d))
    &&& (d < s.len() ==> all_digits(s.subrange(d + 1, s.len() as int)))
}

/// Value of an accepted rating text, in thousandths of a point.
pub open spec fn rating_milli_val(s: Seq<char>) -> int {
    let d = dot_pos(s);
    digits_val(s.subrange(0, d)) * 1000 + if d < s.len() {
        frac_milli(s.subrange(d + 1, s.len() as int))
    } else {
        0
    }
}

proof fn lemma_dot_pos(s: Seq<char>, d: int)
    requires
        0 <= d <= s.len(),
        forall|j: int| 0 <= j < d ==> s[j] != '.',
        d < s.len() ==> s[d] == '.',
    ensures
        dot_pos(s) == d,
    decreases s.len(),
{
    if s.len() == 0 {
    } else if s[0] == '.' {
        assert(d == 0);
    } else {
        assert(d >= 1);
        let tail = s.drop_first();
        assert forall|j: int| 0 <= j < d - 1 implies tail[j] != '.' by {
            assert(tail[j] == s[j + 1]);
        }
        lemma_dot_pos(tail, d - 1);
    }
}

fn find_dot(s: &str) -> (d: usize)
    ensures
        d <= s@.len(),
        dot_pos(s@) == d,
        d < s@.len() ==> s@[d as int] == '.',
        forall|j: int| 0 <= j < d ==> s@[j] != '.',
{
    let n = s.unicode_len();
    let mut i: usize = 0;
    while i < n
        invariant
            n == s@.len(),
            i <= n,
            forall|j: int| 0 <= j < i ==> s@[j] != '.',
        decreases n - i,
    {
        if s.get_char(i) == '.' {
            proof {
                lemma_dot_pos(s@, i as int);
            }
            return i;
        }
        i += 1;
    }
    proof {
        lemma_dot_pos(s@, n as int);
    }
    n
}

/// Reads a rating as both sources print one ("4", "4.5", "4.25") into
/// thousandths of a point, truncating digits beyond the third behind the
/// dot.  Returns the value exactly when the text fits the form and the
/// value is representable.
pub fn parse_rating_milli(s: &str) -> (r: Option<u32>)
    ensures
        match r {
            Some(v) => rating_text_ok(s@) && v as int == rating_milli_val(s@),
            None => !rating_text_ok(s@) || rating_milli_val(s@) > u32::MAX as int,
        },
{
    let n = s.unicode_len();
    let d = find_dot(s);
    if d == 0 {
        return None;
    }
    let ip = s.substring_char(0, d);
    let iv: u32 = match parse_u32(ip) {
        Some(v) => v,
        None => {
            proof {
                if rating_text_ok(s@) {
                    assert(ip@ == s@.subrange(0, d as int));
                    assert(ip@.len() == d);
                    assert(all_digits(s@.subrange(0, d as int)));
                    assert(digits_val(s@.subrange(0, d as int)) > u32::MAX as int);
                    lemma_digits_val_nonneg(s@.subrange(0, d as int));
                    if d < s@.len() {
                        let f = s@.subrange(d + 1 as int, s@.len() as int);
                        assert(all_digits(f));
                        assert(f.len() >= 1 ==> is_digit(f[0]) && digit_val(f[0]) >= 0);
                        assert(f.len() >= 2 ==> is_digit(f[1]) && digit_val(f[1]) >= 0);
                        assert(f.len() >= 3 ==> is_digit(f[2]) && digit_val(f[2]) >= 0);
                        assert(frac_milli(f) >= 0);
                    }
                    assert(rating_milli_val(s@) > u32::MAX as int);
                }
            }
            return None;
        },
    };
    let mut fm: u32 = 0;
    if d < n {
        let mut j: usize = d + 1;
        while j < n
            invariant
                n == s@.len(),
                d + 1 <= j <= n,
                dot_pos(s@) == d,
                1 <= d,
                all_digits(s@.subrange(0, d as int)),
                iv as int == digits_val(s@.subrange(0, d as int)),
                forall|t: int| d + 1 <= t < j ==> is_digit(#[trigger] s@[t]),
            decreases n - j,
        {
            let c = s.get_char(j);
            let u = c as u32;
            if u < 48 || u > 57 {
                proof {
                    let f = s@.subrange(d + 1 as int, s@.len() as int);
                    assert(f[j - d - 1 as int] == s@[j as int]);
                    assert(!is_digit(s@[j as int]));
                    assert(!all_digits(f));
                    assert(!rating_text_ok(s@));
                }
                return None;
            }
            j += 1;
        }
        proof {
            let f = s@.subrange(d + 1 as int, s@.len() as int);
            assert forall|t: int| 0 <= t < f.len() implies is_digit(#[trigger] f[t]) by {
                assert(f[t] == s@[d + 1 + t]);
            }
        }
        if d + 1 < n {
            fm = fm + ((s.get_char(d + 1) as u32) - 48) * 100;
            if d + 2 < n {
                fm = fm + ((s.get_char(d + 2) as u32) - 48) * 10;
                if d + 3 < n {
                    fm = fm + ((s.get_char(d + 3) as u32) - 48);
                }
            }
        }
        proof {
            let f = s@.subrange(d + 1 as int, s@.len() as int);
            assert(f.len() >= 1 ==> f[0] == s@[d + 1 as int]);
            assert(f.len() >= 2 ==> f[1] == s@[d + 2 as int]);
            assert(f.len() >= 3 ==> f[2] == s@[d + 3 as int]);
            assert(fm as int == frac_milli(f));
        }
    }
    let total: u64 = (iv as u64) * 1000 + (fm as u64);
    if total > u32::MAX as u64 {
        return None;
    }
    Some(total as u32)
}

// ---------------------------------------------------------------------------
// Strain names taken from page locators.
// ---------------------------------------------------------------------------

/// Start of the last '/'-separated segment: one past the last slash, or
/// the beginning when there is none.
pub open spec fn seg_start(s: Seq<char>) -> int
    decreases s.len(),
{
    if s.len() == 0 {
        0
    } else if s.last() == '/' {
        s.len() as int
    } else {
        seg_start(s.drop_last())
    }
}

/// The last '/'-separated segment.
pub open spec fn last_segment(s: Seq<char>) -> Seq<char> {
    s.subrange(seg_start(s), s.len() as int)
}

/// Hyphens turned into spaces.
pub open spec fn dehyphen(s: Seq<char>) -> Seq<char> {
    s.map_values(|c: char| if c == '-' { ' ' } else { c })
}

/// The strain name encoded in a detail-page locator: its last segment,
/// hyphens read as spaces.
pub fn strain_name_from_url(url: &str) -> (r: String)
    ensures
        r@ == dehyphen(last_segment(url@)),
{
    let n = url.unicode_len();
    let mut k: usize = 0;
    let mut i: usize = 0;
    while i < n
        invariant
            n == url@.len(),
            i <= n,
            k <= i,
            k == seg_start(url@.subrange(0, i as int)),
        decreases n - i,
    {
        proof {
            assert(url@.subrange(0, i + 1 as int).drop_last() =~= url@.subrange(0, i as int));
            assert(url@.subrange(0, i + 1 as int).last() == url@[i as int]);
        }
        if url.get_char(i) == '/' {
            k = i + 1;
        }
        i += 1;
    }
    proof {
        assert(url@.subrange(0, n as int) =~= url@);
    }
    let mut out = String::new();
    let mut j: usize = k;
    while j < n
        invariant
            n == url@.len(),
            k <= j <= n,
            k == seg_start(url@),
            out@ == dehyphen(url@.subrange(k as int, j as int)),
        decreases n - j,
    {
        let c = url.get_char(j);
        let mapped = if c == '-' {
            ' '
        } else {
            c
        };
        push_char(&mut out, mapped);
        proof {
            assert(dehyphen(url@.subrange(k as int, j + 1 as int)) =~= dehyphen(
                url@.subrange(k as int, j as int),
            ).push(if url@[j as int] == '-' {
                ' '
            } else {
                url@[j as int]
            }));
        }
        j += 1;
    }
    out
}

// ---------------------------------------------------------------------------
// Search locators.
// ---------------------------------------------------------------------------

/// Tokens joined with '+', as both sources want them in a search locator.
pub open spec fn join_plus(ts: Seq<Seq<char>>) -> Seq<char>
    decreases ts.len(),
{
    if ts.len() == 0 {
        Seq::empty()
    } else if ts.len() == 1 {
        ts[0]
    } else {
        join_plus(ts.drop_last()) + seq!['+'] + ts.last()
    }
}

/// Joins the query tokens with '+'.
pub fn join_terms(terms: &Vec<String>) -> (r: String)
    ensures
        r@ == join_plus(tviews(terms@)),
{
    let mut out = String::new();
    let mut i: usize = 0;
    while i < terms.len()
        invariant
            i <= terms@.len(),
            out@ == join_plus(tviews(terms@).subrange(0, i as int)),
        decreases terms@.len() - i,
    {
        let ghost tv = tviews(terms@);
        if i > 0 {
            push_char(&mut out, '+');
        }
        out.append(terms[i].as_str());
        proof {
            assert(tv.subrange(0, i + 1 as int).drop_last() =~= tv.subrange(0, i as int));
            assert(tv.subrange(0, i + 1 as int).last() == terms@[i as int]@);
            if i == 0 {
                assert(out@ =~= join_plus(tv.subrange(0, i + 1 as int)));
            } else {
                assert(out@ =~= join_plus(tv.subrange(0, i as int)) + seq!['+'] + terms@[
                    i as int
                ]@);
            }
        }
        i += 1;
    }
    proof {
        assert(tviews(terms@).subrange(0, terms@.len() as int) =~= tviews(terms@));
    }
    out
}

} // verus!
