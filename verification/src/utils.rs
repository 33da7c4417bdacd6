//! Utility functions: hex codecs, human-readable formatting, path
//! normalisation and ignore-pattern matching.

use vstd::prelude::*;
use crate::errors::BlazeError;
use crate::strutil::{dec_rep, dec_digit, u64_to_string, push_char};

verus! {

broadcast use vstd::string::group_string_axioms;

/// The lowercase hexadecimal digit character of a value below sixteen.
pub open spec fn hex_char_of(n: int) -> char {
    if n == 0 { '0' }
    else if n == 1 { '1' }
    else if n == 2 { '2' }
    else if n == 3 { '3' }
    else if n == 4 { '4' }
    else if n == 5 { '5' }
    else if n == 6 { '6' }
    else if n == 7 { '7' }
    else if n == 8 { '8' }
    else if n == 9 { '9' }
    else if n == 10 { 'a' }
    else if n == 11 { 'b' }
    else if n == 12 { 'c' }
    else if n == 13 { 'd' }
    else if n == 14 { 'e' }
    else { 'f' }
}

/// The lowercase hexadecimal rendering of a byte sequence: two digits
/// per byte, high nibble first.
pub open spec fn hex_of(bytes: Seq<u8>) -> Seq<char> {
    Seq::new(bytes.len() * 2, |i: int|
        if i % 2 == 0 { hex_char_of(bytes[i / 2] as int / 16) }
        else { hex_char_of(bytes[i / 2] as int % 16) })
}

/// Whether a character is a hexadecimal digit, in either case.
pub open spec fn is_hex_char(c: char) -> bool {
    ('0' <= c && c <= '9') || ('a' <= c && c <= 'f') || ('A' <= c && c <= 'F')
}

/// The value of a hexadecimal digit character.
pub open spec fn hex_val_of(c: char) -> int {
    if '0' <= c && c <= '9' { c as int - '0' as int }
    else if 'a' <= c && c <= 'f' { 10 + c as int - 'a' as int }
    else { 10 + c as int - 'A' as int }
}

fn hex_char_exec(n: u8) -> (c: char)
    requires
        n < 16,
    ensures
        c == hex_char_of(n as int),
{
    if n == 0 { '0' }
    else if n == 1 { '1' }
    else if n == 2 { '2' }
    else if n == 3 { '3' }
    else if n == 4 { '4' }
    else if n == 5 { '5' }
    else if n == 6 { '6' }
    else if n == 7 { '7' }
    else if n == 8 { '8' }
    else if n == 9 { '9' }
    else if n == 10 { 'a' }
    else if n == 11 { 'b' }
    else if n == 12 { 'c' }
    else if n == 13 { 'd' }
    else if n == 14 { 'e' }
    else { 'f' }
}

/// Convert bytes to a lowercase hex string.
pub fn bytes_to_hex(bytes: &[u8]) -> (r: String)
    ensures
        r@ == hex_of(bytes@),
{
    let mut s = String::new();
    let mut i: usize = 0;
    while i < bytes.len()
        invariant
            0 <= i <= bytes@.len(),
            s@ == hex_of(bytes@.take(i as int)),
        decreases bytes@.len() - i,
    {
        let b = bytes[i];
        push_char(&mut s, hex_char_exec(b / 16));
        push_char(&mut s, hex_char_exec(b % 16));
        proof {
            assert(s@ =~= hex_of(bytes@.take(i + 1)));
        }
        i += 1;
    }
    proof {
        assert(bytes@.take(bytes@.len() as int) =~= bytes@);
    }
    s
}

fn is_hex_char_exec(c: char) -> (r: bool)
    ensures
        r == is_hex_char(c),
{
    ('0' <= c && c <= '9') || ('a' <= c && c <= 'f') || ('A' <= c && c <= 'F')
}

fn hex_val_exec(c: char) -> (v: u8)
    requires
        is_hex_char(c),
    ensures
        v == hex_val_of(c),
        v < 16,
{
    if '0' <= c && c <= '9' {
        (c as u8) - 48
    } else if 'a' <= c && c <= 'f' {
        (c as u8) - 97 + 10
    } else {
        (c as u8) - 65 + 10
    }
}

/// Convert a hex string to bytes.  Fails with a validation error when
/// the string has odd length or holds a non-hexadecimal character.
pub fn hex_to_bytes(hex: &str) -> (r: Result<Vec<u8>, BlazeError>)
    ensures
        r is Ok <==> (hex@.len() % 2 == 0
            && forall|i: int| 0 <= i < hex@.len() ==> is_hex_char(#[trigger] hex@[i])),
        r matches Ok(v) ==> v@.len() * 2 == hex@.len()
            && forall|i: int| 0 <= i < v@.len()
                ==> #[trigger] v@[i] == 16 * hex_val_of(hex@[2 * i]) + hex_val_of(hex@[2 * i + 1]),
        r matches Err(e) ==> e is Validation,
{
    let len = hex.unicode_len();
    if len % 2 != 0 {
        return Err(BlazeError::Validation(String::from_str(
            "Hex string must have even length",
        )));
    }
    let mut bytes: Vec<u8> = Vec::new();
    let mut i: usize = 0;
    while i < len
        invariant
            len == hex@.len(),
            len % 2 == 0,
            i % 2 == 0,
            0 <= i <= len,
            bytes@.len() * 2 == i,
            forall|j: int| 0 <= j < i ==> is_hex_char(#[trigger] hex@[j]),
            forall|j: int| 0 <= j < bytes@.len()
                ==> #[trigger] bytes@[j] == 16 * hex_val_of(hex@[2 * j]) + hex_val_of(
                hex@[2 * j + 1]),
        decreases len - i,
    {
        let hi = hex.get_char(i);
        let lo = hex.get_char(i + 1);
        if !is_hex_char_exec(hi) || !is_hex_char_exec(lo) {
            return Err(BlazeError::Validation(String::from_str("Invalid hex string")));
        }
        let b = 16 * hex_val_exec(hi) + hex_val_exec(lo);
        bytes.push(b);
        i += 2;
    }
    Ok(bytes)
}

/// Round-tripping bytes through their hexadecimal rendering parses back
/// to the same bytes: the rendering is even-length, every character is a
/// hex digit, and each parsed byte recovers the original.
pub proof fn lemma_hex_round_trip(b: Seq<u8>)
    ensures
        hex_of(b).len() % 2 == 0,
        forall|i: int| 0 <= i < hex_of(b).len() ==> is_hex_char(#[trigger] hex_of(b)[i]),
        forall|i: int| 0 <= i < b.len()
            ==> 16 * hex_val_of(hex_of(b)[2 * i]) + hex_val_of(hex_of(b)[2 * i + 1]) == b[i],
{
    assert forall|i: int| 0 <= i < hex_of(b).len() implies is_hex_char(#[trigger] hex_of(b)[i]) by {
        let v = if i % 2 == 0 { b[i / 2] as int / 16 } else { b[i / 2] as int % 16 };
        assert(0 <= v < 16);
    }
    assert forall|i: int| 0 <= i < b.len() implies 16 * hex_val_of(hex_of(b)[2 * i]) + hex_val_of(
        hex_of(b)[2 * i + 1]) == b[i] by {
        assert((2 * i) / 2 == i && (2 * i) % 2 == 0);
        assert((2 * i + 1) / 2 == i && (2 * i + 1) % 2 == 1);
        let hi = b[i] as int / 16;
        let lo = b[i] as int % 16;
        assert(0 <= hi < 16 && 0 <= lo < 16);
        assert(hex_val_of(hex_char_of(hi)) == hi);
        assert(hex_val_of(hex_char_of(lo)) == lo);
    }
}

/// Format a duration in seconds as a short human-readable phrase.
pub open spec fn format_duration_spec(seconds: int) -> Seq<char> {
    if seconds < 60 {
        dec_rep(seconds) + "s"@
    } else if seconds < 3600 {
        dec_rep(seconds / 60) + "m "@ + dec_rep(seconds % 60) + "s"@
    } else {
        dec_rep(seconds / 3600) + "h "@ + dec_rep((seconds % 3600) / 60) + "m"@
    }
}

/// Format duration in human-readable format (s, m s, h m).
pub fn format_duration(seconds: u64) -> (r: String)
    ensures
        r@ == format_duration_spec(seconds as int),
{
    if seconds < 60 {
        let mut s = u64_to_string(seconds);
        s.append("s");
        s
    } else if seconds < 3600 {
        let mut s = u64_to_string(seconds / 60);
        s.append("m ");
        let rest = u64_to_string(seconds % 60);
        s.append(rest.as_str());
        s.append("s");
        s
    } else {
        let mut s = u64_to_string(seconds / 3600);
        s.append("h ");
        let rest = u64_to_string((seconds % 3600) / 60);
        s.append(rest.as_str());
        s.append("m");
        s
    }
}

/// Powers of 1024.
pub open spec fn pow1024(k: int) -> int
    decreases k,
{
    if k <= 0 { 1 } else { 1024 * pow1024(k - 1) }
}

/// The unit used to render a byte count of at least 1024: 1 for KB up
/// to 4 for TB.
pub open spec fn size_unit_index(bytes: int) -> int {
    if bytes < pow1024(2) { 1 }
    else if bytes < pow1024(3) { 2 }
    else if bytes < pow1024(4) { 3 }
    else { 4 }
}

/// The name of each size unit.
pub open spec fn size_unit_name(k: int) -> Seq<char> {
    if k == 1 { "KB"@ } else if k == 2 { "MB"@ } else if k == 3 { "GB"@ } else { "TB"@ }
}

/// `num * 100 / den`, rounded to the nearest integer with ties going to
/// the even neighbour.
pub open spec fn hundredths_round(num: int, den: int) -> int {
    let t = num * 100;
    let q = t / den;
    let r = t % den;
    if 2 * r > den { q + 1 } else if 2 * r < den { q } else if q % 2 == 0 { q } else { q + 1 }
}

/// A byte count rendered with a size unit: counts below 1024 exactly in
/// bytes, larger counts scaled by the unit and rounded to two decimals.
pub open spec fn format_size_spec(bytes: int) -> Seq<char> {
    if bytes < 1024 {
        dec_rep(bytes) + " B"@
    } else {
        let k = size_unit_index(bytes);
        let sc = hundredths_round(bytes, pow1024(k));
        dec_rep(sc / 100) + "."@ + seq![dec_digit((sc % 100) / 10), dec_digit(sc % 10)] + " "@
            + size_unit_name(k)
    }
}

/// Format file sizes in human-readable format (B, KB, MB, GB, TB).
#[verifier::rlimit(60)]
pub fn format_size(bytes: u64) -> (r: String)
    ensures
        r@ == format_size_spec(bytes as int),
{
    if bytes < 1024 {
        let mut s = u64_to_string(bytes);
        s.append(" B");
        return s;
    }
    let ghost b = bytes as int;
    let den: u64;
    let unit: &'static str;
    if bytes < 1024 * 1024 {
        den = 1024;
        unit = "KB";
    } else if bytes < 1024 * 1024 * 1024 {
        den = 1024 * 1024;
        unit = "MB";
    } else if bytes < 1024 * 1024 * 1024 * 1024 {
        den = 1024 * 1024 * 1024;
        unit = "GB";
    } else {
        den = 1024 * 1024 * 1024 * 1024;
        unit = "TB";
    }
    proof {
        reveal_with_fuel(pow1024, 5);
        assert(den == pow1024(size_unit_index(b)));
        assert(unit@ == size_unit_name(size_unit_index(b)));
    }
    let whole = bytes / den;
    let rem = bytes % den;
    let t = rem * 100;
    let fq = t / den;
    let fr = t % den;
    let frac: u64 = if 2 * fr > den {
        fq + 1
    } else if 2 * fr < den {
        fq
    } else if fq % 2 == 0 {
        fq
    } else {
        fq + 1
    };
    proof {
        let d = den as int;
        let w = whole as int;
        let rm = rem as int;
        let q2 = fq as int;
        let r2 = fr as int;
        vstd::arithmetic::div_mod::lemma_fundamental_div_mod(b, d);
        vstd::arithmetic::div_mod::lemma_fundamental_div_mod(rm * 100, d);
        assert(b == d * w + rm);
        assert(rm * 100 == d * q2 + r2);
        assert(b * 100 == (w * 100 + q2) * d + r2) by (nonlinear_arith)
            requires
                b == d * w + rm,
                rm * 100 == d * q2 + r2,
        ;
        assert(0 <= r2 < d);
        vstd::arithmetic::div_mod::lemma_fundamental_div_mod_converse(
            b * 100, d, w * 100 + q2, r2);
        assert((b * 100) / d == w * 100 + q2);
        assert((b * 100) % d == r2);
        assert((w * 100 + q2) % 2 == q2 % 2) by (nonlinear_arith)
            requires
                q2 >= 0,
                w >= 0,
        ;
        assert(hundredths_round(b, d) == whole * 100 + frac);
    }
    let sc = whole * 100 + frac;
    let mut s = u64_to_string(sc / 100);
    s.append(".");
    push_char(&mut s, crate::strutil::dec_digit_char(( sc % 100) / 10));
    push_char(&mut s, crate::strutil::dec_digit_char(sc % 10));
    s.append(" ");
    s.append(unit);
    proof {
        assert((sc % 100) % 10 == sc % 10) by (nonlinear_arith);
        assert(s@ =~= format_size_spec(b));
    }
    s
}

/// Relies on std's SystemTime::now and duration_since: seconds since
/// the Unix epoch, zero when the clock reads before the epoch.  The
/// result depends on the clock, so nothing is promised of it.
#[verifier::external_body]
pub fn current_timestamp() -> u64 {
    std::time::SystemTime::now()
        .duration_since(std::time::UNIX_EPOCH)
        .unwrap_or_default()
        .as_secs()
}

/// The phrase describing how long ago `timestamp` lies, seen from
/// `now`.
pub open spec fn elapsed_phrase_spec(now: int, timestamp: int) -> Seq<char> {
    if now >= timestamp {
        let elapsed = now - timestamp;
        if elapsed < 60 {
            "just now"@
        } else if elapsed < 3600 {
            let minutes = elapsed / 60;
            dec_rep(minutes) + " minute"@ + (if minutes == 1 { ""@ } else { "s"@ }) + " ago"@
        } else if elapsed < 86400 {
            let hours = elapsed / 3600;
            dec_rep(hours) + " hour"@ + (if hours == 1 { ""@ } else { "s"@ }) + " ago"@
        } else {
            let days = elapsed / 86400;
            dec_rep(days) + " day"@ + (if days == 1 { ""@ } else { "s"@ }) + " ago"@
        }
    } else {
        "in the future"@
    }
}

/// The phrase describing the time elapsed from `timestamp` to `now`.
pub fn elapsed_phrase(now: u64, timestamp: u64) -> (r: String)
    ensures
        r@ == elapsed_phrase_spec(now as int, timestamp as int),
{
    if now >= timestamp {
        let elapsed = now - timestamp;
        if elapsed < 60 {
            String::from_str("just now")
        } else if elapsed < 3600 {
            let minutes = elapsed / 60;
            let mut s = u64_to_string(minutes);
            s.append(" minute");
            if minutes != 1 {
                s.append("s");
            }
            s.append(" ago");
            proof {
                reveal_strlit("");
                assert(s@ =~= elapsed_phrase_spec(now as int, timestamp as int));
            }
            s
        } else if elapsed < 86400 {
            let hours = elapsed / 3600;
            let mut s = u64_to_string(hours);
            s.append(" hour");
            if hours != 1 {
                s.append("s");
            }
            s.append(" ago");
            proof {
                reveal_strlit("");
                assert(s@ =~= elapsed_phrase_spec(now as int, timestamp as int));
            }
            s
        } else {
            let days = elapsed / 86400;
            let mut s = u64_to_string(days);
            s.append(" day");
            if days != 1 {
                s.append("s");
            }
            s.append(" ago");
            proof {
                reveal_strlit("");
                assert(s@ =~= elapsed_phrase_spec(now as int, timestamp as int));
            }
            s
        }
    } else {
        String::from_str("in the future")
    }
}

/// Format elapsed time since a timestamp, read against the current
/// clock.
pub fn format_elapsed_time(timestamp: u64) -> String {
    let now = current_timestamp();
    elapsed_phrase(now, timestamp)
}

/// A path separator: forward slash, or backslash (normalised away).
pub open spec fn is_sep(c: char) -> bool {
    c == '/' || c == '\\'
}

/// The index of the first separator in `s`, or `s.len()` when there is
/// none.
pub open spec fn first_sep(s: Seq<char>) -> int
    decreases s.len(),
{
    if s.len() == 0 {
        0
    } else if is_sep(s[0]) {
        0
    } else {
        1 + first_sep(s.skip(1))
    }
}

proof fn lemma_first_sep_at(s: Seq<char>, k: int)
    requires
        0 <= k <= s.len(),
        forall|j: int| 0 <= j < k ==> !is_sep(s[j]),
        k < s.len() ==> is_sep(s[k]),
    ensures
        first_sep(s) == k,
    decreases s.len(),
{
    if s.len() == 0 {
    } else if is_sep(s[0]) {
    } else {
        lemma_first_sep_at(s.skip(1), k - 1);
    }
}

/// The raw components of a path: the stretches between separators.
pub open spec fn raw_components(s: Seq<char>) -> Seq<Seq<char>>
    decreases s.len(),
{
    let k = first_sep(s);
    if k < 0 || k >= s.len() {
        seq![s]
    } else {
        seq![s.take(k)] + raw_components(s.skip(k + 1))
    }
}

/// Whether a path component is kept: non-empty and not ".".
pub open spec fn keep_component(c: Seq<char>) -> bool {
    c.len() > 0 && c != "."@
}

/// The kept components, in order.
pub open spec fn kept_components(cs: Seq<Seq<char>>) -> Seq<Seq<char>>
    decreases cs.len(),
{
    if cs.len() == 0 {
        Seq::empty()
    } else if keep_component(cs[0]) {
        seq![cs[0]] + kept_components(cs.skip(1))
    } else {
        kept_components(cs.skip(1))
    }
}

/// Components joined with forward slashes.
pub open spec fn join_slash(cs: Seq<Seq<char>>) -> Seq<char>
    decreases cs.len(),
{
    if cs.len() == 0 {
        Seq::empty()
    } else if cs.len() == 1 {
        cs[0]
    } else {
        cs[0] + "/"@ + join_slash(cs.skip(1))
    }
}

/// A path with backslashes treated as separators, empty and "."
/// components removed, and the rest joined with forward slashes.
pub open spec fn normalize_spec(s: Seq<char>) -> Seq<char> {
    join_slash(kept_components(raw_components(s)))
}

proof fn lemma_kept_all_keep(cs: Seq<Seq<char>>)
    ensures
        forall|i: int| 0 <= i < kept_components(cs).len()
            ==> keep_component(#[trigger] kept_components(cs)[i]),
    decreases cs.len(),
{
    if cs.len() > 0 {
        lemma_kept_all_keep(cs.skip(1));
        if keep_component(cs[0]) {
            assert forall|i: int| 0 <= i < kept_components(cs).len() implies keep_component(
                #[trigger] kept_components(cs)[i]) by {
                if i > 0 {
                    assert(kept_components(cs)[i] == kept_components(cs.skip(1))[i - 1]);
                }
            }
        }
    }
}

proof fn lemma_join_first_len(cs: Seq<Seq<char>>)
    requires
        cs.len() > 0,
    ensures
        join_slash(cs).len() >= cs[0].len(),
{
}

fn is_sep_exec(c: char) -> (r: bool)
    ensures
        r == is_sep(c),
{
    c == '/' || c == '\\'
}

fn keep_component_exec(c: &str) -> (r: bool)
    ensures
        r == keep_component(c@),
{
    if c.unicode_len() == 0 {
        false
    } else {
        !crate::strutil::str_eq(c, ".")
    }
}

fn normalize_from(s: &str, i: usize) -> (r: String)
    requires
        i <= s@.len(),
    ensures
        r@ == join_slash(kept_components(raw_components(s@.skip(i as int)))),
    decreases s@.len() - i,
{
    let len = s.unicode_len();
    let mut j = i;
    while j < len && !is_sep_exec(s.get_char(j))
        invariant
            len == s@.len(),
            i <= j <= len,
            forall|m: int| i <= m < j ==> !is_sep(s@[m]),
        decreases len - j,
    {
        j += 1;
    }
    let ghost tail = s@.skip(i as int);
    proof {
        assert forall|m: int| 0 <= m < j - i implies !is_sep(tail[m]) by {
            assert(tail[m] == s@[i + m]);
        }
        if j < len {
            assert(tail[j - i] == s@[j as int]);
        }
        lemma_first_sep_at(tail, j - i);
    }
    let comp = s.substring_char(i, j);
    proof {
        assert(comp@ =~= tail.take(j - i));
    }
    let kept = keep_component_exec(comp);
    if j == len {
        proof {
            assert(tail.take(j - i) =~= tail);
            assert(raw_components(tail) =~= seq![tail]);
            assert(seq![tail].skip(1) =~= Seq::<Seq<char>>::empty());
            assert(kept_components(Seq::<Seq<char>>::empty()) == Seq::<Seq<char>>::empty());
            assert(kept_components(seq![tail].skip(1)) == Seq::<Seq<char>>::empty());
            if keep_component(tail) {
                assert(kept_components(seq![tail]) =~= seq![tail]);
            } else {
                assert(kept_components(seq![tail]) =~= Seq::<Seq<char>>::empty());
            }
        }
        if kept {
            comp.to_owned()
        } else {
            String::new()
        }
    } else {
        let rest = normalize_from(s, j + 1);
        let ghost rtail = s@.skip(j + 1 as int);
        let ghost comps = raw_components(tail);
        proof {
            assert(rtail =~= tail.skip(j - i + 1));
            assert(comps == seq![comp@] + raw_components(rtail));
            assert((seq![comp@] + raw_components(rtail)).skip(1) =~= raw_components(rtail));
            assert(comps[0] == comp@);
            lemma_kept_all_keep(raw_components(rtail));
        }
        if !kept {
            proof {
                assert(kept_components(comps) == kept_components(raw_components(rtail)));
            }
            rest
        } else {
            let ghost kc = kept_components(comps);
            proof {
                assert(kc == seq![comp@] + kept_components(raw_components(rtail)));
            }
            if rest.as_str().unicode_len() == 0 {
                proof {
                    let krest = kept_components(raw_components(rtail));
                    if krest.len() > 0 {
                        lemma_join_first_len(krest);
                        assert(krest[0].len() > 0);
                        assert(false);
                    }
                    assert(kc =~= seq![comp@]);
                }
                comp.to_owned()
            } else {
                proof {
                    let krest = kept_components(raw_components(rtail));
                    assert(krest.len() > 0);
                    assert(kc.len() >= 2);
                    assert(kc[0] == comp@);
                    assert(kc.skip(1) =~= krest);
                }
                let mut out = comp.to_owned();
                out.append("/");
                out.append(rest.as_str());
                out
            }
        }
    }
}

/// Normalize a path to use forward slashes and remove empty and "."
/// components.
pub fn normalize_path(path: &str) -> (r: String)
    ensures
        r@ == normalize_spec(path@),
{
    proof {
        assert(path@.skip(0) =~= path@);
    }
    normalize_from(path, 0)
}

/// Glob matching with `*` wildcards, from position `i` of the pattern
/// and `j` of the text.
pub open spec fn glob_match_at(p: Seq<char>, t: Seq<char>, i: int, j: int) -> bool
    decreases p.len() - i, t.len() - j,
{
    if i < 0 || j < 0 {
        false
    } else if i >= p.len() {
        j >= t.len()
    } else if p[i] == '*' {
        glob_match_at(p, t, i + 1, j) || (j < t.len() && glob_match_at(p, t, i, j + 1))
    } else {
        j < t.len() && p[i] == t[j] && glob_match_at(p, t, i + 1, j + 1)
    }
}

/// Whether a pattern with `*` wildcards matches the whole text.
pub open spec fn glob_match_spec(p: Seq<char>, t: Seq<char>) -> bool {
    glob_match_at(p, t, 0, 0)
}

fn glob_match_from(p: &str, t: &str, i: usize, j: usize) -> (r: bool)
    requires
        i <= p@.len(),
        j <= t@.len(),
    ensures
        r == glob_match_at(p@, t@, i as int, j as int),
    decreases p@.len() - i, t@.len() - j,
{
    let plen = p.unicode_len();
    let tlen = t.unicode_len();
    if i >= plen {
        j >= tlen
    } else if p.get_char(i) == '*' {
        if glob_match_from(p, t, i + 1, j) {
            true
        } else if j < tlen {
            glob_match_from(p, t, i, j + 1)
        } else {
            false
        }
    } else {
        j < tlen && p.get_char(i) == t.get_char(j) && glob_match_from(p, t, i + 1, j + 1)
    }
}

/// Simple glob pattern matching (supports the `*` wildcard).
pub fn simple_glob_match(pattern: &str, text: &str) -> (r: bool)
    ensures
        r == glob_match_spec(pattern@, text@),
{
    glob_match_from(pattern, text, 0, 0)
}

/// Whether one ignore pattern matches a normalized path: a trailing
/// slash names a directory prefix, a leading "*." names an extension,
/// any other `*` pattern is a glob, and the rest match exactly.
pub open spec fn pattern_matches(p: Seq<char>, t: Seq<char>) -> bool {
    if p.len() > 0 && p[p.len() - 1] == '/' {
        let d = p.take(p.len() - 1);
        t.len() >= d.len() && t.take(d.len() as int) == d
            && (t.len() == d.len() || t[d.len() as int] == '/')
    } else if p.len() >= 2 && p[0] == '*' && p[1] == '.' {
        let suffix = p.skip(1);
        t.len() >= suffix.len() && t.skip(t.len() - suffix.len()) == suffix
    } else if p.contains('*') {
        glob_match_spec(p, t)
    } else {
        p == t
    }
}

/// Whether any ignore pattern matches the normalized path.
pub open spec fn should_ignore_spec(path: Seq<char>, patterns: Seq<Seq<char>>) -> bool {
    exists|k: int| 0 <= k < patterns.len()
        && pattern_matches(#[trigger] patterns[k], normalize_spec(path))
}

fn pattern_matches_exec(p: &str, t: &str) -> (r: bool)
    ensures
        r == pattern_matches(p@, t@),
{
    let plen = p.unicode_len();
    let tlen = t.unicode_len();
    if plen > 0 && p.get_char(plen - 1) == '/' {
        let dir = p.substring_char(0, plen - 1);
        proof {
            assert(dir@ =~= p@.take(p@.len() - 1));
        }
        if crate::strutil::starts_with_str(t, dir) {
            proof {
                assert(t@.subrange(0, dir@.len() as int) =~= t@.take(dir@.len() as int));
            }
            tlen == plen - 1 || t.get_char(plen - 1) == '/'
        } else {
            proof {
                if t@.len() >= dir@.len() {
                    assert(t@.subrange(0, dir@.len() as int) =~= t@.take(dir@.len() as int));
                }
            }
            false
        }
    } else if plen >= 2 && p.get_char(0) == '*' && p.get_char(1) == '.' {
        let suffix = p.substring_char(1, plen);
        proof {
            assert(suffix@ =~= p@.skip(1));
        }
        let r = crate::strutil::ends_with_str(t, suffix);
        proof {
            if t@.len() >= suffix@.len() {
                assert(t@.subrange(t@.len() - suffix@.len(), t@.len() as int) =~= t@.skip(
                    t@.len() - suffix@.len()));
            }
        }
        r
    } else if crate::strutil::contains_char(p, '*') {
        simple_glob_match(p, t)
    } else {
        crate::strutil::str_eq(p, t)
    }
}

/// Check if a path matches any of the ignore patterns.
pub fn should_ignore_path(path: &str, patterns: &[&str]) -> (r: bool)
    ensures
        r == should_ignore_spec(path@, patterns.deep_view()),
{
    let normalized = normalize_path(path);
    let mut k: usize = 0;
    while k < patterns.len()
        invariant
            normalized@ == normalize_spec(path@),
            0 <= k <= patterns@.len(),
            forall|m: int| 0 <= m < k
                ==> !pattern_matches(#[trigger] patterns.deep_view()[m], normalize_spec(path@)),
        decreases patterns@.len() - k,
    {
        let p = patterns[k];
        proof {
            assert(patterns.deep_view()[k as int] == patterns@[k as int]@);
        }
        if pattern_matches_exec(p, normalized.as_str()) {
            return true;
        }
        k += 1;
    }
    false
}

/// Whether an ignore-file line is kept: non-blank and not a comment.
pub open spec fn keep_ignore_line(line: Seq<char>) -> bool {
    crate::strutil::trim_spec(line).len() > 0 && crate::strutil::trim_spec(line)[0] != '#'
}

/// The patterns the first `i` ignore-file lines contribute: each kept
/// line trimmed, in order.
pub open spec fn ignore_patterns_prefix(lines: Seq<Seq<char>>, i: int) -> Seq<Seq<char>>
    decreases i,
{
    if i <= 0 {
        Seq::empty()
    } else {
        ignore_patterns_prefix(lines, i - 1) + (if keep_ignore_line(lines[i - 1]) {
            seq![crate::strutil::trim_spec(lines[i - 1])]
        } else {
            Seq::empty()
        })
    }
}

/// The patterns an ignore file's lines contribute.
pub open spec fn ignore_patterns_spec(lines: Seq<Seq<char>>) -> Seq<Seq<char>> {
    ignore_patterns_prefix(lines, lines.len() as int)
}

/// Turn the lines of an ignore file into patterns: trim each line and
/// drop blank lines and `#` comments.
pub fn filter_ignore_lines(lines: &Vec<String>) -> (r: Vec<String>)
    ensures
        r.deep_view() == ignore_patterns_spec(lines.deep_view()),
{
    let ghost lv = lines.deep_view();
    let mut out: Vec<String> = Vec::new();
    let mut i: usize = 0;
    while i < lines.len()
        invariant
            0 <= i <= lines@.len(),
            lv == lines.deep_view(),
            out.deep_view() == ignore_patterns_prefix(lv, i as int),
        decreases lines@.len() - i,
    {
        let ghost old_out = out.deep_view();
        let trimmed = crate::strutil::trim_str(lines[i].as_str());
        proof {
            assert(lv[i as int] == lines@[i as int]@);
        }
        if trimmed.unicode_len() > 0 && trimmed.get_char(0) != '#' {
            out.push(trimmed.to_owned());
            proof {
                assert(out.deep_view() =~= old_out + seq![crate::strutil::trim_spec(lv[i as int])]);
            }
        }
        proof {
            assert(out.deep_view() =~= ignore_patterns_prefix(lv, i + 1));
        }
        i += 1;
    }
    out
}

/// The index of the last occurrence of `c` in `s`, or -1 when absent.
pub open spec fn rfind(s: Seq<char>, c: char) -> int
    decreases s.len(),
{
    if s.len() == 0 {
        -1
    } else if s[s.len() - 1] == c {
        s.len() - 1
    } else {
        rfind(s.take(s.len() - 1), c)
    }
}

proof fn lemma_rfind_prefix(s: Seq<char>, c: char, k: int)
    requires
        0 <= k <= s.len(),
        forall|m: int| k <= m < s.len() ==> s[m] != c,
    ensures
        rfind(s, c) == rfind(s.take(k), c),
    decreases s.len() - k,
{
    if k == s.len() {
        assert(s.take(k) =~= s);
    } else {
        lemma_rfind_prefix(s, c, k + 1);
        let t = s.take(k + 1);
        assert(t[t.len() - 1] == s[k as int]);
        assert(t.take(t.len() - 1) =~= s.take(k));
    }
}

fn rfind_exec(s: &str, c: char) -> (r: Option<usize>)
    ensures
        match r {
            Some(i) => i < s@.len() && rfind(s@, c) == i as int,
            None => rfind(s@, c) == -1,
        },
{
    let len = s.unicode_len();
    let mut k = len;
    while k > 0
        invariant
            len == s@.len(),
            0 <= k <= len,
            forall|m: int| k <= m < len ==> s@[m] != c,
        decreases k,
    {
        if s.get_char(k - 1) == c {
            proof {
                lemma_rfind_prefix(s@, c, k as int);
                let t = s@.take(k as int);
                assert(t[t.len() - 1] == s@[k - 1]);
            }
            return Some(k - 1);
        }
        k -= 1;
    }
    proof {
        lemma_rfind_prefix(s@, c, 0);
        assert(s@.take(0) =~= Seq::<char>::empty());
    }
    None
}

/// Lowercase mapping for ASCII letters; other characters unchanged.
pub open spec fn ascii_lower(c: char) -> char {
    if c == 'A' { 'a' } else if c == 'B' { 'b' } else if c == 'C' { 'c' }
    else if c == 'D' { 'd' } else if c == 'E' { 'e' } else if c == 'F' { 'f' }
    else if c == 'G' { 'g' } else if c == 'H' { 'h' } else if c == 'I' { 'i' }
    else if c == 'J' { 'j' } else if c == 'K' { 'k' } else if c == 'L' { 'l' }
    else if c == 'M' { 'm' } else if c == 'N' { 'n' } else if c == 'O' { 'o' }
    else if c == 'P' { 'p' } else if c == 'Q' { 'q' } else if c == 'R' { 'r' }
    else if c == 'S' { 's' } else if c == 'T' { 't' } else if c == 'U' { 'u' }
    else if c == 'V' { 'v' } else if c == 'W' { 'w' } else if c == 'X' { 'x' }
    else if c == 'Y' { 'y' } else if c == 'Z' { 'z' } else { c }
}

fn ascii_lower_exec(c: char) -> (r: char)
    ensures
        r == ascii_lower(c),
{
    if c == 'A' { 'a' } else if c == 'B' { 'b' } else if c == 'C' { 'c' }
    else if c == 'D' { 'd' } else if c == 'E' { 'e' } else if c == 'F' { 'f' }
    else if c == 'G' { 'g' } else if c == 'H' { 'h' } else if c == 'I' { 'i' }
    else if c == 'J' { 'j' } else if c == 'K' { 'k' } else if c == 'L' { 'l' }
    else if c == 'M' { 'm' } else if c == 'N' { 'n' } else if c == 'O' { 'o' }
    else if c == 'P' { 'p' } else if c == 'Q' { 'q' } else if c == 'R' { 'r' }
    else if c == 'S' { 's' } else if c == 'T' { 't' } else if c == 'U' { 'u' }
    else if c == 'V' { 'v' } else if c == 'W' { 'w' } else if c == 'X' { 'x' }
    else if c == 'Y' { 'y' } else if c == 'Z' { 'z' } else { c }
}

/// A sequence of characters lowercased letter by letter.
pub open spec fn lower_seq(s: Seq<char>) -> Seq<char> {
    s.map_values(|c: char| ascii_lower(c))
}

/// The file extension of a path: what follows the last dot of the last
/// component, where the dot is neither leading nor absent.
pub open spec fn extension_of(s: Seq<char>) -> Option<Seq<char>> {
    let name = s.skip(rfind(s, '/') + 1);
    let d = rfind(name, '.');
    if d <= 0 {
        None
    } else {
        Some(name.skip(d + 1))
    }
}

/// The extensions always treated as binary.
pub open spec fn is_binary_ext(e: Seq<char>) -> bool {
    e == "exe"@ || e == "dll"@ || e == "so"@ || e == "dylib"@ || e == "bin"@ || e == "dat"@
        || e == "db"@ || e == "sqlite"@ || e == "sqlite3"@ || e == "jpg"@ || e == "jpeg"@
        || e == "png"@ || e == "gif"@ || e == "bmp"@ || e == "ico"@ || e == "webp"@ || e == "svg"@
        || e == "mp3"@ || e == "wav"@ || e == "flac"@ || e == "ogg"@ || e == "m4a"@ || e == "aac"@
        || e == "mp4"@ || e == "avi"@ || e == "mkv"@ || e == "mov"@ || e == "wmv"@ || e == "flv"@
        || e == "webm"@ || e == "pdf"@ || e == "doc"@ || e == "docx"@ || e == "xls"@
        || e == "xlsx"@ || e == "ppt"@ || e == "pptx"@ || e == "zip"@ || e == "rar"@ || e == "7z"@
        || e == "tar"@ || e == "gz"@ || e == "bz2"@ || e == "xz"@
}

/// Whether a path names a binary file, judged by its extension.
pub open spec fn is_binary_file_spec(s: Seq<char>) -> bool {
    match extension_of(s) {
        Some(e) => is_binary_ext(lower_seq(e)),
        None => false,
    }
}

fn is_binary_ext_exec(e: &str) -> (r: bool)
    ensures
        r == is_binary_ext(e@),
{
    crate::strutil::str_eq(e, "exe") || crate::strutil::str_eq(e, "dll")
        || crate::strutil::str_eq(e, "so") || crate::strutil::str_eq(e, "dylib")
        || crate::strutil::str_eq(e, "bin") || crate::strutil::str_eq(e, "dat")
        || crate::strutil::str_eq(e, "db") || crate::strutil::str_eq(e, "sqlite")
        || crate::strutil::str_eq(e, "sqlite3") || crate::strutil::str_eq(e, "jpg")
        || crate::strutil::str_eq(e, "jpeg") || crate::strutil::str_eq(e, "png")
        || crate::strutil::str_eq(e, "gif") || crate::strutil::str_eq(e, "bmp")
        || crate::strutil::str_eq(e, "ico") || crate::strutil::str_eq(e, "webp")
        || crate::strutil::str_eq(e, "svg") || crate::strutil::str_eq(e, "mp3")
        || crate::strutil::str_eq(e, "wav") || crate::strutil::str_eq(e, "flac")
        || crate::strutil::str_eq(e, "ogg") || crate::strutil::str_eq(e, "m4a")
        || crate::strutil::str_eq(e, "aac") || crate::strutil::str_eq(e, "mp4")
        || crate::strutil::str_eq(e, "avi") || crate::strutil::str_eq(e, "mkv")
        || crate::strutil::str_eq(e, "mov") || crate::strutil::str_eq(e, "wmv")
        || crate::strutil::str_eq(e, "flv") || crate::strutil::str_eq(e, "webm")
        || crate::strutil::str_eq(e, "pdf") || crate::strutil::str_eq(e, "doc")
        || crate::strutil::str_eq(e, "docx") || crate::strutil::str_eq(e, "xls")
        || crate::strutil::str_eq(e, "xlsx") || crate::strutil::str_eq(e, "ppt")
        || crate::strutil::str_eq(e, "pptx") || crate::strutil::str_eq(e, "zip")
        || crate::strutil::str_eq(e, "rar") || crate::strutil::str_eq(e, "7z")
        || crate::strutil::str_eq(e, "tar") || crate::strutil::str_eq(e, "gz")
        || crate::strutil::str_eq(e, "bz2") || crate::strutil::str_eq(e, "xz")
}

/// Check if a file should be treated as binary based on its extension.
pub fn is_binary_file(path: &str) -> (r: bool)
    ensures
        r == is_binary_file_spec(path@),
{
    let len = path.unicode_len();
    let name_start = match rfind_exec(path, '/') {
        Some(i) => i + 1,
        None => 0,
    };
    let name = path.substring_char(name_start, len);
    proof {
        assert(name@ =~= path@.skip(rfind(path@, '/') + 1));
    }
    let name_len = name.unicode_len();
    let d = match rfind_exec(name, '.') {
        Some(i) => i,
        None => return false,
    };
    if d == 0 {
        return false;
    }
    let ext = name.substring_char(d + 1, name_len);
    proof {
        assert(ext@ =~= name@.skip(rfind(name@, '.') + 1));
    }
    let ext_len = ext.unicode_len();
    let mut lowered = String::new();
    let mut i: usize = 0;
    while i < ext_len
        invariant
            ext_len == ext@.len(),
            0 <= i <= ext_len,
            lowered@ == lower_seq(ext@.take(i as int)),
        decreases ext_len - i,
    {
        push_char(&mut lowered, ascii_lower_exec(ext.get_char(i)));
        proof {
            assert(lowered@ =~= lower_seq(ext@.take(i + 1)));
        }
        i += 1;
    }
    proof {
        assert(ext@.take(ext@.len() as int) =~= ext@);
    }
    is_binary_ext_exec(lowered.as_str())
}

/// Truncate a string to a maximum character count, appending an
/// ellipsis when it was cut.
pub open spec fn truncate_spec(s: Seq<char>, max_len: int) -> Seq<char> {
    if s.len() <= max_len {
        s
    } else if max_len <= 3 {
        "..."@
    } else {
        s.subrange(0, max_len - 3) + "..."@
    }
}

/// Truncate a string to a maximum length with ellipsis.
pub fn truncate_string(s: &str, max_len: usize) -> (r: String)
    ensures
        r@ == truncate_spec(s@, max_len as int),
{
    let len = s.unicode_len();
    if len <= max_len {
        s.to_owned()
    } else if max_len <= 3 {
        String::from_str("...")
    } else {
        let head = s.substring_char(0, max_len - 3);
        let mut out = head.to_owned();
        out.append("...");
        out
    }
}

} // verus!
