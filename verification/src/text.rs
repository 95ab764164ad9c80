//! Character-level text operations with exact contracts over `Seq<char>`.

use vstd::prelude::*;
use vstd::string::*;

verus! {

/// `pat` stands in `hay` at position `at`.
pub open spec fn occurs_at(hay: Seq<char>, pat: Seq<char>, at: int) -> bool {
    &&& 0 <= at
    &&& at + pat.len() <= hay.len()
    &&& forall|k: int| 0 <= k < pat.len() ==> #[trigger] hay[at + k] == pat[k]
}

/// `at` is the first position from `from` on at which `pat` stands in `hay`.
pub open spec fn first_occurrence(hay: Seq<char>, pat: Seq<char>, from: int, at: int) -> bool {
    &&& from <= at
    &&& occurs_at(hay, pat, at)
    &&& forall|j: int| from <= j < at ==> !occurs_at(hay, pat, j)
}

/// `pat` stands somewhere in `hay`.
pub open spec fn occurs_in(hay: Seq<char>, pat: Seq<char>) -> bool {
    exists|at: int| occurs_at(hay, pat, at)
}

/// `hay` begins with `pat`.
pub open spec fn has_prefix(hay: Seq<char>, pat: Seq<char>) -> bool {
    occurs_at(hay, pat, 0)
}

/// The characters of `s`, in order.
pub fn chars_of(s: &str) -> (v: Vec<char>)
    ensures
        v@ == s@,
{
    let mut v: Vec<char> = Vec::new();
    for c in it: s.chars()
        invariant
            it.seq() == s@,
            v@ == it.seq().take(it.index() as int),
    {
        v.push(c);
    }
    v
}

/// Whether `pat` stands in `hay` at `at`.
pub fn matches_at(hay: &Vec<char>, at: usize, pat: &Vec<char>) -> (r: bool)
    ensures
        r == occurs_at(hay@, pat@, at as int),
{
    if at > hay.len() || pat.len() > hay.len() - at {
        return false;
    }
    let mut k: usize = 0;
    while k < pat.len()
        invariant
            k <= pat.len(),
            at + pat.len() <= hay.len(),
            forall|j: int| 0 <= j < k ==> #[trigger] hay@[at + j] == pat@[j],
        decreases pat.len() - k,
    {
        if hay[at + k] != pat[k] {
            return false;
        }
        k += 1;
    }
    true
}

/// The first position from `from` on at which `pat` stands in `hay`, if any.
pub fn find_from(hay: &Vec<char>, pat: &Vec<char>, from: usize) -> (r: Option<usize>)
    ensures
        match r {
            Some(at) => first_occurrence(hay@, pat@, from as int, at as int),
            None => forall|j: int| from <= j ==> !occurs_at(hay@, pat@, j),
        },
{
    if from > hay.len() {
        return None;
    }
    let mut at: usize = from;
    while at < hay.len()
        invariant
            from <= at <= hay.len(),
            forall|j: int| from <= j < at ==> !occurs_at(hay@, pat@, j),
        decreases hay.len() - at,
    {
        if matches_at(hay, at, pat) {
            return Some(at);
        }
        at += 1;
    }
    if matches_at(hay, at, pat) {
        Some(at)
    } else {
        None
    }
}

/// Whether `pat` stands somewhere in `hay`.
pub fn contains_chars(hay: &Vec<char>, pat: &Vec<char>) -> (r: bool)
    ensures
        r == occurs_in(hay@, pat@),
{
    match find_from(hay, pat, 0) {
        Some(_) => true,
        None => false,
    }
}

/// Whether the text `s` begins with the character `c`.
pub fn starts_with_char(s: &str, c: char) -> (r: bool)
    ensures
        r == (s@.len() > 0 && s@[0] == c),
{
    s.unicode_len() > 0 && s.get_char(0) == c
}

/// Whether two texts hold the same characters.
pub fn same_text(a: &str, b: &str) -> (r: bool)
    ensures
        r == (a@ == b@),
{
    let x = chars_of(a);
    let y = chars_of(b);
    if x.len() != y.len() {
        return false;
    }
    let mut k: usize = 0;
    while k < x.len()
        invariant
            k <= x.len(),
            x.len() == y.len(),
            x@ == a@,
            y@ == b@,
            forall|j: int| 0 <= j < k ==> x@[j] == y@[j],
        decreases x.len() - k,
    {
        if x[k] != y[k] {
            return false;
        }
        k += 1;
    }
    assert(x@ =~= y@);
    true
}

/// Unicode white space: the characters that `char::is_whitespace` accepts.
pub open spec fn is_space(c: char) -> bool {
    let n = c as u32;
    ||| 0x09 <= n <= 0x0D
    ||| n == 0x20
    ||| n == 0x85
    ||| n == 0xA0
    ||| n == 0x1680
    ||| 0x2000 <= n <= 0x200A
    ||| n == 0x2028
    ||| n == 0x2029
    ||| n == 0x202F
    ||| n == 0x205F
    ||| n == 0x3000
}

/// Whether `c` is Unicode white space.
pub fn is_space_char(c: char) -> (r: bool)
    ensures
        r == is_space(c),
{
    let n: u32 = c as u32;
    (0x09 <= n && n <= 0x0D) || n == 0x20 || n == 0x85 || n == 0xA0 || n == 0x1680 || (0x2000 <= n
        && n <= 0x200A) || n == 0x2028 || n == 0x2029 || n == 0x202F || n == 0x205F || n == 0x3000
}

/// The end of the line that holds position `from`: the next line feed, or the
/// end of the text.
pub open spec fn line_end(s: Seq<char>, from: int) -> int
    decreases s.len() - from,
{
    if 0 <= from < s.len() && s[from] != '\n' {
        line_end(s, from + 1)
    } else {
        from
    }
}

/// The first position in `from..to` that holds no white space, or `to`.
pub open spec fn skip_spaces(s: Seq<char>, from: int, to: int) -> int
    decreases to - from,
{
    if 0 <= from < to <= s.len() && is_space(s[from]) {
        skip_spaces(s, from + 1, to)
    } else {
        from
    }
}

/// The end of `from..to` once the white space at its end is dropped.
pub open spec fn drop_spaces(s: Seq<char>, from: int, to: int) -> int
    decreases to - from,
{
    if 0 <= from < to <= s.len() && is_space(s[to - 1]) {
        drop_spaces(s, from, to - 1)
    } else {
        to
    }
}

/// The first position in `from..to` that is left once every leading copy of
/// `pat` is skipped.
pub open spec fn skip_copies(s: Seq<char>, pat: Seq<char>, from: int, to: int) -> int
    decreases to - from,
{
    if pat.len() > 0 && from + pat.len() <= to && occurs_at(s, pat, from) {
        skip_copies(s, pat, from + pat.len(), to)
    } else {
        from
    }
}

/// Computes `line_end`.
pub fn find_line_end(s: &Vec<char>, from: usize) -> (r: usize)
    requires
        from <= s.len(),
    ensures
        r == line_end(s@, from as int),
        from <= r <= s.len(),
{
    let mut at: usize = from;
    while at < s.len() && s[at] != '\n'
        invariant
            from <= at <= s.len(),
            line_end(s@, from as int) == line_end(s@, at as int),
        decreases s.len() - at,
    {
        at += 1;
    }
    at
}

/// Computes `skip_spaces`.
pub fn find_skip_spaces(s: &Vec<char>, from: usize, to: usize) -> (r: usize)
    requires
        from <= to <= s.len(),
    ensures
        r == skip_spaces(s@, from as int, to as int),
        from <= r <= to,
{
    let mut at: usize = from;
    while at < to && is_space_char(s[at])
        invariant
            from <= at <= to <= s.len(),
            skip_spaces(s@, from as int, to as int) == skip_spaces(s@, at as int, to as int),
        decreases to - at,
    {
        at += 1;
    }
    at
}

/// Computes `drop_spaces`.
pub fn find_drop_spaces(s: &Vec<char>, from: usize, to: usize) -> (r: usize)
    requires
        from <= to <= s.len(),
    ensures
        r == drop_spaces(s@, from as int, to as int),
        from <= r <= to,
{
    let mut end: usize = to;
    while end > from && is_space_char(s[end - 1])
        invariant
            from <= end <= to <= s.len(),
            drop_spaces(s@, from as int, to as int) == drop_spaces(s@, from as int, end as int),
        decreases end - from,
    {
        end -= 1;
    }
    end
}

/// Computes `skip_copies`.
pub fn find_skip_copies(s: &Vec<char>, pat: &Vec<char>, from: usize, to: usize) -> (r: usize)
    requires
        from <= to <= s.len(),
    ensures
        r == skip_copies(s@, pat@, from as int, to as int),
        from <= r <= to,
{
    let mut at: usize = from;
    if pat.len() == 0 {
        return at;
    }
    while pat.len() <= to - at && matches_at(s, at, pat)
        invariant
            from <= at <= to <= s.len(),
            pat.len() > 0,
            skip_copies(s@, pat@, from as int, to as int) == skip_copies(
                s@,
                pat@,
                at as int,
                to as int,
            ),
        decreases to - at,
    {
        at += pat.len();
    }
    at
}

/// The texts of a list of strings.
pub open spec fn texts(v: Seq<String>) -> Seq<Seq<char>> {
    Seq::new(v.len(), |i: int| v[i]@)
}

/// A copy of a list of strings.
pub fn copy_strings(v: &Vec<String>) -> (r: Vec<String>)
    ensures
        texts(r@) == texts(v@),
{
    let mut r: Vec<String> = Vec::new();
    let mut i: usize = 0;
    while i < v.len()
        invariant
            i <= v.len(),
            r.len() == i,
            forall|j: int| 0 <= j < i ==> r@[j]@ == v@[j]@,
        decreases v.len() - i,
    {
        r.push(v[i].clone());
        i += 1;
    }
    assert(texts(r@) =~= texts(v@));
    r
}

/// The characters `from..to` of `s` as a string of their own.
pub fn slice_of(s: &str, from: usize, to: usize) -> (r: String)
    requires
        from <= to <= s@.len(),
    ensures
        r@ == s@.subrange(from as int, to as int),
{
    s.substring_char(from, to).to_owned()
}

/// The first position of `list` that holds the text `t`, if any.
pub fn position_of(list: &Vec<String>, t: &str) -> (r: Option<usize>)
    ensures
        match r {
            Some(i) => i < list.len() && list@[i as int]@ == t@ && forall|j: int|
                0 <= j < i ==> (#[trigger] list@[j])@ != t@,
            None => !texts(list@).contains(t@),
        },
{
    let mut i: usize = 0;
    while i < list.len()
        invariant
            i <= list.len(),
            forall|j: int| 0 <= j < i ==> (#[trigger] list@[j])@ != t@,
        decreases list.len() - i,
    {
        if same_text(list[i].as_str(), t) {
            return Some(i);
        }
        i += 1;
    }
    assert(forall|j: int| 0 <= j < list.len() ==> texts(list@)[j] == (#[trigger] list@[j])@);
    None
}

/// Whether `list` holds the text `t`.
pub fn list_has(list: &Vec<String>, t: &str) -> (r: bool)
    ensures
        r == texts(list@).contains(t@),
{
    match position_of(list, t) {
        Some(i) => {
            assert(texts(list@)[i as int] == t@);
            true
        },
        None => false,
    }
}

/// The path of `name` below `dir`: `name` alone where it opens with a slash,
/// else `dir`, a slash unless `dir` is empty or ends with one, and `name`.
pub open spec fn joined_path(dir: Seq<char>, name: Seq<char>) -> Seq<char> {
    if name.len() > 0 && name[0] == '/' {
        name
    } else if dir.len() == 0 || dir.last() == '/' {
        dir + name
    } else {
        dir + seq!['/'] + name
    }
}

/// Computes `joined_path`.
pub fn join_path(dir: &str, name: &str) -> (r: String)
    ensures
        r@ == joined_path(dir@, name@),
{
    if starts_with_char(name, '/') {
        return name.to_owned();
    }
    let n: usize = dir.unicode_len();
    let mut out = dir.to_owned();
    if n > 0 && dir.get_char(n - 1) != '/' {
        proof {
            reveal_strlit("/");
            assert("/"@ =~= seq!['/']);
        }
        out.append("/");
    }
    out.append(name);
    out
}

/// The text that `str::to_lowercase` gives for `text`.
pub uninterp spec fn lowercase(text: Seq<char>) -> Seq<char>;

/// Calls `str::to_lowercase`. The contract names the text that it returns.
#[verifier::external_body]
pub(crate) fn to_lowercase(text: &str) -> (r: String)
    ensures
        r@ == lowercase(text@),
{
    text.to_lowercase()
}

/// Whether the characters `pat` stand somewhere in the text `hay`.
pub fn text_contains(hay: &str, pat: &Vec<char>) -> (r: bool)
    ensures
        r == occurs_in(hay@, pat@),
{
    let chars = chars_of(hay);
    contains_chars(&chars, pat)
}

/// Whether the characters `query` stand in the lower-case form of `text`.
pub fn lowercase_contains(text: &str, query: &Vec<char>) -> (r: bool)
    ensures
        r == occurs_in(lowercase(text@), query@),
{
    let lowered = to_lowercase(text);
    text_contains(lowered.as_str(), query)
}

/// `a` and `b` hold the same characters at the positions before `k`.
pub open spec fn agree_to(a: Seq<char>, b: Seq<char>, k: int) -> bool {
    &&& 0 <= k <= a.len()
    &&& k <= b.len()
    &&& forall|j: int| 0 <= j < k ==> a[j] == b[j]
}

/// `a` and `b` part ways at `k`, with `a` before `b`: `a` ends there and `b`
/// goes on, or `a` holds the smaller character there.
pub open spec fn parts_before(a: Seq<char>, b: Seq<char>, k: int) -> bool {
    &&& agree_to(a, b, k)
    &&& (k == a.len() && k < b.len()) || (k < a.len() && k < b.len() && (a[k] as int) < (
    b[k] as int))
}

/// `a` stands before `b` in the order of strings: the lexicographic order by
/// code point.
pub open spec fn text_lt(a: Seq<char>, b: Seq<char>) -> bool {
    exists|k: int| parts_before(a, b, k)
}

/// Each text of `s` stands before the next.
pub open spec fn strictly_sorted(s: Seq<Seq<char>>) -> bool {
    forall|i: int, j: int| 0 <= i < j < s.len() ==> text_lt(#[trigger] s[i], #[trigger] s[j])
}

/// Of two different texts one stands before the other.
pub proof fn lemma_text_total(a: Seq<char>, b: Seq<char>, k: int)
    requires
        agree_to(a, b, k),
        a != b,
    ensures
        text_lt(a, b) || text_lt(b, a),
    decreases a.len() - k,
{
    if k == a.len() {
        if k == b.len() {
            assert(a =~= b);
        } else {
            assert(parts_before(a, b, k));
        }
    } else if k == b.len() {
        assert(agree_to(b, a, k));
        assert(parts_before(b, a, k));
    } else if a[k] == b[k] {
        lemma_text_total(a, b, k + 1);
    } else if (a[k] as int) < (b[k] as int) {
        assert(parts_before(a, b, k));
    } else {
        assert(agree_to(b, a, k));
        assert(parts_before(b, a, k));
    }
}

/// The order of strings is transitive.
pub proof fn lemma_text_lt_transitive(a: Seq<char>, b: Seq<char>, c: Seq<char>)
    requires
        text_lt(a, b),
        text_lt(b, c),
    ensures
        text_lt(a, c),
{
    let k1 = choose|k: int| parts_before(a, b, k);
    let k2 = choose|k: int| parts_before(b, c, k);
    let k = if k1 <= k2 {
        k1
    } else {
        k2
    };
    assert(agree_to(a, c, k));
    assert(parts_before(a, c, k));
}

/// No text stands before itself, and of two texts at most one stands before
/// the other.
pub proof fn lemma_text_lt_asymmetric(a: Seq<char>, b: Seq<char>)
    requires
        text_lt(a, b),
    ensures
        !text_lt(b, a),
        a != b,
{
    if text_lt(b, a) {
        let k1 = choose|k: int| parts_before(a, b, k);
        let k2 = choose|k: int| parts_before(b, a, k);
        if k1 < k2 {
            assert(b[k1] == a[k1]);
        } else if k2 < k1 {
            assert(a[k2] == b[k2]);
        }
    }
    if a == b {
        let k1 = choose|k: int| parts_before(a, b, k);
    }
}

/// Whether `a` stands before `b` in the order of strings.
pub fn text_before(a: &Vec<char>, b: &Vec<char>) -> (r: bool)
    ensures
        r == text_lt(a@, b@),
{
    let mut k: usize = 0;
    while k < a.len() && k < b.len()
        invariant
            agree_to(a@, b@, k as int),
        decreases a.len() - k,
    {
        let x: char = a[k];
        let y: char = b[k];
        if x < y {
            assert(parts_before(a@, b@, k as int));
            return true;
        }
        if y < x {
            proof {
                assert(agree_to(b@, a@, k as int));
                assert(parts_before(b@, a@, k as int));
                lemma_text_lt_asymmetric(b@, a@);
            }
            return false;
        }
        k += 1;
    }
    if k < b.len() {
        assert(parts_before(a@, b@, k as int));
        true
    } else {
        proof {
            if k < a.len() {
                assert(agree_to(b@, a@, k as int));
                assert(parts_before(b@, a@, k as int));
                lemma_text_lt_asymmetric(b@, a@);
            } else {
                assert(a@ =~= b@);
                if text_lt(a@, b@) {
                    lemma_text_lt_asymmetric(a@, b@);
                }
            }
        }
        false
    }
}

/// Puts the text `t` into the sorted list `list`, unless it is there: the
/// list stays sorted without a text twice and holds what it held, and `t`.
pub fn insert_sorted(list: &mut Vec<String>, t: &str)
    requires
        strictly_sorted(texts(old(list)@)),
    ensures
        strictly_sorted(texts(final(list)@)),
        forall|x: Seq<char>|
            texts(final(list)@).contains(x) <==> texts(old(list)@).contains(x) || x == t@,
{
    let tc = chars_of(t);
    let ghost before = texts(list@);
    let mut p: usize = 0;
    let mut stop = false;
    while p < list.len() && !stop
        invariant
            p <= list.len(),
            tc@ == t@,
            list@ == old(list)@,
            before == texts(list@),
            forall|j: int| 0 <= j < p ==> text_lt(#[trigger] before[j], t@),
            stop ==> p < list.len() && !text_lt(before[p as int], t@),
        decreases list.len() - p + if stop { 0int } else { 1int },
    {
        let here = chars_of(list[p].as_str());
        assert(before[p as int] == here@);
        if text_before(&here, &tc) {
            p += 1;
        } else {
            stop = true;
        }
    }
    if p < list.len() && same_text(list[p].as_str(), t) {
        assert(before[p as int] == t@);
        return ;
    }
    proof {
        assert forall|j: int| p <= j < before.len() implies text_lt(t@, #[trigger] before[j]) by {
            assert(before[p as int] != t@);
            assert(stop);
            lemma_text_total(before[p as int], t@, 0);
            if j > p {
                lemma_text_lt_transitive(t@, before[p as int], before[j]);
            }
        }
        assert forall|j: int| 0 <= j < before.len() implies #[trigger] before[j] != t@ by {
            if j < p {
                lemma_text_lt_asymmetric(before[j], t@);
            } else {
                lemma_text_lt_asymmetric(t@, before[j]);
            }
        }
    }
    list.insert(p, t.to_owned());
    proof {
        let after = texts(list@);
        assert(after =~= before.insert(p as int, t@));
        assert forall|i: int, j: int| 0 <= i < j < after.len() implies text_lt(
            #[trigger] after[i],
            #[trigger] after[j],
        ) by {
            let a = if i < p { i } else { i - 1 };
            let b = if j < p { j } else { j - 1 };
            if i == p {
                assert(after[j] == before[b]);
            } else if j == p {
                assert(after[i] == before[a]);
            } else {
                assert(after[i] == before[a]);
                assert(after[j] == before[b]);
            }
        }
        assert forall|x: Seq<char>| after.contains(x) <==> before.contains(x) || x == t@ by {
            if after.contains(x) {
                let i = choose|i: int| 0 <= i < after.len() && after[i] == x;
                if i != p {
                    let a = if i < p { i } else { i - 1 };
                    assert(before[a] == x);
                }
            }
            if before.contains(x) {
                let a = choose|a: int| 0 <= a < before.len() && before[a] == x;
                let i = if a < p { a } else { a + 1 };
                assert(after[i] == x);
            }
            if x == t@ {
                assert(after[p as int] == x);
            }
        }
    }
}

/// One of the first `n` texts of `s` is `t`.
pub open spec fn among_first(s: Seq<Seq<char>>, n: int, t: Seq<char>) -> bool {
    exists|k: int| 0 <= k < n && k < s.len() && #[trigger] s[k] == t
}

/// Puts each text of `more` into the sorted list `list`, unless it is there:
/// the list stays sorted without a text twice and holds what it held, and the
/// texts of `more`.
pub fn add_sorted(list: &mut Vec<String>, more: &Vec<String>)
    requires
        strictly_sorted(texts(old(list)@)),
    ensures
        strictly_sorted(texts(final(list)@)),
        forall|t: Seq<char>|
            #[trigger] texts(final(list)@).contains(t) <==> texts(old(list)@).contains(t) || texts(
                more@,
            ).contains(t),
{
    let ghost start = texts(list@);
    let ghost given = texts(more@);
    let mut m: usize = 0;
    while m < more.len()
        invariant
            m <= more.len(),
            start == texts(old(list)@),
            given == texts(more@),
            strictly_sorted(texts(list@)),
            forall|t: Seq<char>|
                #[trigger] texts(list@).contains(t) <==> start.contains(t) || among_first(
                    given,
                    m as int,
                    t,
                ),
        decreases more.len() - m,
    {
        let ghost before = texts(list@);
        insert_sorted(list, more[m].as_str());
        proof {
            let after = texts(list@);
            let tag = more@[m as int]@;
            assert(given[m as int] == tag);
            assert forall|t: Seq<char>| #[trigger]
                after.contains(t) <==> start.contains(t) || among_first(given, m + 1, t) by {
                assert(after.contains(t) <==> before.contains(t) || t == tag);
                assert(before.contains(t) <==> start.contains(t) || among_first(
                    given,
                    m as int,
                    t,
                ));
                if among_first(given, m + 1, t) {
                    let k = choose|k: int| 0 <= k < m + 1 && k < given.len() && #[trigger] given[k]
                        == t;
                    if k < m {
                        assert(among_first(given, m as int, t));
                    }
                }
                if among_first(given, m as int, t) {
                    let k = choose|k: int| 0 <= k < m && k < given.len() && #[trigger] given[k]
                        == t;
                    assert(given[k] == t);
                }
            }
        }
        m += 1;
    }
    proof {
        assert forall|t: Seq<char>| #[trigger]
            texts(list@).contains(t) <==> start.contains(t) || given.contains(t) by {
            assert(texts(list@).contains(t) <==> start.contains(t) || among_first(
                given,
                m as int,
                t,
            ));
            if given.contains(t) {
                let k = choose|k: int| 0 <= k < given.len() && given[k] == t;
                assert(given[k] == t);
            }
            if among_first(given, m as int, t) {
                let k = choose|k: int| 0 <= k < m && k < given.len() && #[trigger] given[k] == t;
                assert(given[k] == t);
            }
        }
    }
}

} // verus!
