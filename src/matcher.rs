//! Deciding whether a process name plausibly names the process a user asked for.
use vstd::prelude::*;
use vstd::string::*;

verus! {

/// Names of at least this many characters may have been cut short by the OS.
pub const TRUNCATION_LEN: usize = 15;

/// What `str::to_lowercase` makes of a sequence of characters.
pub uninterp spec fn lower_of(s: Seq<char>) -> Seq<char>;

/// `s` begins with `prefix`.
pub open spec fn starts_with(s: Seq<char>, prefix: Seq<char>) -> bool {
    prefix.len() <= s.len() && s.subrange(0, prefix.len() as int) == prefix
}

/// The text after the last `/` of `s` (all of `s` when it holds none).
pub open spec fn basename(s: Seq<char>) -> Seq<char>
    decreases s.len(),
{
    if s.len() == 0 {
        s
    } else if s.last() == '/' {
        Seq::empty()
    } else {
        basename(s.drop_last()).push(s.last())
    }
}

/// `s` ends in one of the four-character executable suffixes.
pub open spec fn has_exe_suffix(s: Seq<char>) -> bool {
    s.len() >= 4 && {
        let e = s.subrange(s.len() - 4, s.len() as int);
        e == seq!['.', 'e', 'x', 'e'] || e == seq!['.', 'a', 'p', 'p'] || e == seq![
            '.',
            'b',
            'i',
            'n',
        ] || e == seq!['.', 'r', 'u', 'n']
    }
}

/// `s` without its executable suffix, if it has one.
pub open spec fn strip_exe_suffix(s: Seq<char>) -> Seq<char> {
    if has_exe_suffix(s) {
        s.subrange(0, s.len() - 4)
    } else {
        s
    }
}

/// `s` with every space left out.
pub open spec fn without_spaces(s: Seq<char>) -> Seq<char>
    decreases s.len(),
{
    if s.len() == 0 {
        s
    } else if s.last() == ' ' {
        without_spaces(s.drop_last())
    } else {
        without_spaces(s.drop_last()).push(s.last())
    }
}

/// Whether process name `p` matches query `t`, both already lower-cased;
/// `compact` is the lower-cased query with its spaces removed, taken into
/// account only when the query holds a space (`spaced`).
pub open spec fn name_matches(p: Seq<char>, t: Seq<char>, compact: Seq<char>, spaced: bool) -> bool {
    ||| p == t
    ||| (p.len() >= TRUNCATION_LEN && starts_with(t, p))
    ||| (t.len() > TRUNCATION_LEN && starts_with(p, t.subrange(0, TRUNCATION_LEN as int)))
    ||| starts_with(t, p)
    ||| starts_with(p, t)
    ||| strip_exe_suffix(basename(p)) == strip_exe_suffix(basename(t))
    ||| (spaced && p == compact)
}

/// Relies on `str::to_lowercase`: the result depends on the characters alone.
#[verifier::external_body]
fn lowercase(s: &Vec<char>) -> (r: Vec<char>)
    ensures
        r@ == lower_of(s@),
{
    s.iter().collect::<String>().to_lowercase().chars().collect()
}

/// The characters of `s`.
pub fn chars_of(s: &str) -> (r: Vec<char>)
    ensures
        r@ == s@,
{
    let n = s.unicode_len();
    let mut r: Vec<char> = Vec::new();
    let mut i: usize = 0;
    while i < n
        invariant
            n == s@.len(),
            i <= n,
            r@ == s@.subrange(0, i as int),
        decreases n - i,
    {
        r.push(s.get_char(i));
        i += 1;
        assert(r@ =~= s@.subrange(0, i as int));
    }
    assert(r@ =~= s@);
    r
}

/// Whether `a[alo..ahi]` and `b[blo..bhi]` hold the same characters.
fn range_eq(a: &Vec<char>, alo: usize, ahi: usize, b: &Vec<char>, blo: usize, bhi: usize) -> (r: bool)
    requires
        alo <= ahi <= a@.len(),
        blo <= bhi <= b@.len(),
    ensures
        r == (a@.subrange(alo as int, ahi as int) == b@.subrange(blo as int, bhi as int)),
{
    if ahi - alo != bhi - blo {
        assert(a@.subrange(alo as int, ahi as int).len() != b@.subrange(blo as int, bhi as int).len());
        return false;
    }
    let n = ahi - alo;
    let mut i: usize = 0;
    while i < n
        invariant
            n == ahi - alo,
            n == bhi - blo,
            alo <= ahi <= a@.len(),
            blo <= bhi <= b@.len(),
            i <= n,
            forall|k: int|
                0 <= k < i ==> #[trigger] a@.subrange(alo as int, ahi as int)[k] == b@.subrange(
                    blo as int,
                    bhi as int,
                )[k],
        decreases n - i,
    {
        if a[alo + i] != b[blo + i] {
            assert(a@.subrange(alo as int, ahi as int)[i as int] != b@.subrange(
                blo as int,
                bhi as int,
            )[i as int]);
            return false;
        }
        i += 1;
    }
    assert(a@.subrange(alo as int, ahi as int) =~= b@.subrange(blo as int, bhi as int));
    true
}

/// Whether `s` begins with `prefix`.
fn has_prefix(s: &Vec<char>, prefix: &Vec<char>) -> (r: bool)
    ensures
        r == starts_with(s@, prefix@),
{
    if prefix.len() > s.len() {
        return false;
    }
    proof {
        assert(prefix@.subrange(0, prefix@.len() as int) =~= prefix@);
    }
    range_eq(s, 0, prefix.len(), prefix, 0, prefix.len())
}

/// Whether `s` holds a space.
fn has_space(s: &Vec<char>) -> (r: bool)
    ensures
        r == s@.contains(' '),
{
    let mut i: usize = 0;
    while i < s.len()
        invariant
            i <= s@.len(),
            forall|k: int| 0 <= k < i ==> s@[k] != ' ',
        decreases s@.len() - i,
    {
        if s[i] == ' ' {
            return true;
        }
        i += 1;
    }
    false
}

/// `s` with its spaces removed.
fn remove_spaces(s: &Vec<char>) -> (r: Vec<char>)
    ensures
        r@ == without_spaces(s@),
{
    let mut r: Vec<char> = Vec::new();
    let mut i: usize = 0;
    while i < s.len()
        invariant
            i <= s@.len(),
            r@ == without_spaces(s@.subrange(0, i as int)),
        decreases s@.len() - i,
    {
        assert(s@.subrange(0, i + 1).drop_last() =~= s@.subrange(0, i as int));
        if s[i] != ' ' {
            r.push(s[i]);
        }
        i += 1;
    }
    assert(s@.subrange(0, s@.len() as int) =~= s@);
    r
}

/// Where the basename of `s` begins.
fn basename_start(s: &Vec<char>) -> (j: usize)
    ensures
        j <= s@.len(),
        basename(s@) == s@.subrange(j as int, s@.len() as int),
{
    let mut i: usize = s.len();
    assert(s@.subrange(0, s@.len() as int) =~= s@);
    assert(s@.subrange(i as int, s@.len() as int) =~= Seq::<char>::empty());
    while i > 0 && s[i - 1] != '/'
        invariant
            i <= s@.len(),
            basename(s@) == basename(s@.subrange(0, i as int)) + s@.subrange(
                i as int,
                s@.len() as int,
            ),
        decreases i,
    {
        let ghost pre = s@.subrange(0, i as int);
        assert(pre.drop_last() =~= s@.subrange(0, i - 1));
        assert(basename(pre) == basename(s@.subrange(0, i - 1)).push(s@[i - 1]));
        assert(basename(s@.subrange(0, i - 1)).push(s@[i - 1]) + s@.subrange(
            i as int,
            s@.len() as int,
        ) =~= basename(s@.subrange(0, i - 1)) + s@.subrange(i - 1, s@.len() as int));
        i -= 1;
    }
    assert(basename(s@.subrange(0, i as int)) =~= Seq::<char>::empty());
    assert(Seq::<char>::empty() + s@.subrange(i as int, s@.len() as int) =~= s@.subrange(
        i as int,
        s@.len() as int,
    ));
    i
}

/// Whether `s[lo..]` ends in an executable suffix.
fn ends_with_exe_suffix(s: &Vec<char>, lo: usize) -> (r: bool)
    requires
        lo <= s@.len(),
    ensures
        r == has_exe_suffix(s@.subrange(lo as int, s@.len() as int)),
{
    let n = s.len();
    if n - lo < 4 {
        return false;
    }
    let exe = vec!['.', 'e', 'x', 'e'];
    let app = vec!['.', 'a', 'p', 'p'];
    let bin = vec!['.', 'b', 'i', 'n'];
    let run = vec!['.', 'r', 'u', 'n'];
    let ghost t = s@.subrange(lo as int, n as int);
    assert(t.subrange(t.len() - 4, t.len() as int) =~= s@.subrange(n - 4, n as int));
    assert(exe@.subrange(0, 4) =~= seq!['.', 'e', 'x', 'e']);
    assert(app@.subrange(0, 4) =~= seq!['.', 'a', 'p', 'p']);
    assert(bin@.subrange(0, 4) =~= seq!['.', 'b', 'i', 'n']);
    assert(run@.subrange(0, 4) =~= seq!['.', 'r', 'u', 'n']);
    range_eq(s, n - 4, n, &exe, 0, 4) || range_eq(s, n - 4, n, &bin, 0, 4) || range_eq(
        s,
        n - 4,
        n,
        &app,
        0,
        4,
    ) || range_eq(s, n - 4, n, &run, 0, 4)
}

/// The range of `s` that `strip_exe_suffix(basename(s))` covers.
fn stem_range(s: &Vec<char>) -> (r: (usize, usize))
    ensures
        r.0 <= r.1 <= s@.len(),
        strip_exe_suffix(basename(s@)) == s@.subrange(r.0 as int, r.1 as int),
{
    let lo = basename_start(s);
    let n = s.len();
    if ends_with_exe_suffix(s, lo) {
        assert(s@.subrange(lo as int, n as int).subrange(0, n - lo - 4) =~= s@.subrange(
            lo as int,
            n - 4,
        ));
        (lo, n - 4)
    } else {
        (lo, n)
    }
}

/// Whether process name `p` matches query `t`, given both lower-cased, and
/// the lower-cased query with its spaces removed (`compact`), which counts
/// only when `spaced`.
pub fn matches_folded(p: &Vec<char>, t: &Vec<char>, compact: &Vec<char>, spaced: bool) -> (r: bool)
    ensures
        r == name_matches(p@, t@, compact@, spaced),
{
    if range_eq(p, 0, p.len(), t, 0, t.len()) {
        assert(p@.subrange(0, p@.len() as int) =~= p@);
        assert(t@.subrange(0, t@.len() as int) =~= t@);
        return true;
    }
    assert(p@.subrange(0, p@.len() as int) =~= p@);
    assert(t@.subrange(0, t@.len() as int) =~= t@);
    if p.len() >= TRUNCATION_LEN && has_prefix(t, p) {
        return true;
    }
    if t.len() > TRUNCATION_LEN && p.len() >= TRUNCATION_LEN && range_eq(
        p,
        0,
        TRUNCATION_LEN,
        t,
        0,
        TRUNCATION_LEN,
    ) {
        return true;
    }
    if has_prefix(t, p) || has_prefix(p, t) {
        return true;
    }
    let (plo, phi) = stem_range(p);
    let (tlo, thi) = stem_range(t);
    if range_eq(p, plo, phi, t, tlo, thi) {
        return true;
    }
    if spaced && range_eq(p, 0, p.len(), compact, 0, compact.len()) {
        assert(compact@.subrange(0, compact@.len() as int) =~= compact@);
        return true;
    }
    assert(compact@.subrange(0, compact@.len() as int) =~= compact@);
    false
}

/// Whether the process named `proc_name` plausibly is what `target_name`
/// asks for, comparing without regard to case.
pub fn is_process_matching(proc_name: &str, target_name: &str) -> (r: bool)
    ensures
        r == name_matches(
            lower_of(proc_name@),
            lower_of(target_name@),
            lower_of(without_spaces(target_name@)),
            target_name@.contains(' '),
        ),
{
    let p_raw = chars_of(proc_name);
    let t_raw = chars_of(target_name);
    let p = lowercase(&p_raw);
    let t = lowercase(&t_raw);
    let spaced = has_space(&t_raw);
    let compact = lowercase(&remove_spaces(&t_raw));
    matches_folded(&p, &t, &compact, spaced)
}

/// An exact match always counts: every name matches itself.
pub proof fn lemma_matches_itself(x: Seq<char>)
    ensures
        name_matches(lower_of(x), lower_of(x), lower_of(without_spaces(x)), x.contains(' ')),
{
}

} // verus!
