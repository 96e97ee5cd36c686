use vstd::prelude::*;
use vstd::string::*;

verus! {

/// A path as a sequence of segments.
pub type PathView = Seq<Seq<char>>;

pub open spec fn is_space(c: char) -> bool {
    c == ' ' || c == '\t' || c == '\n' || c == '\r'
}

pub open spec fn is_ident_char(c: char) -> bool {
    ('a' <= c && c <= 'z') || ('A' <= c && c <= 'Z') || ('0' <= c && c <= '9') || c == '_'
}

/// The characters of `s` with whitespace removed.
pub open spec fn strip_spaces(s: Seq<char>) -> Seq<char>
    decreases s.len(),
{
    if s.len() == 0 {
        s
    } else if is_space(s.last()) {
        strip_spaces(s.drop_last())
    } else {
        strip_spaces(s.drop_last()).push(s.last())
    }
}

/// Scans `s`: whether the last non-space character is an identifier
/// character, whether whitespace followed it, and whether whitespace has
/// split an identifier.
pub open spec fn scan_gaps(s: Seq<char>) -> (bool, bool, bool)
    decreases s.len(),
{
    if s.len() == 0 {
        (false, false, false)
    } else {
        let (ident, gap, bad) = scan_gaps(s.drop_last());
        let c = s.last();
        if is_space(c) {
            (ident, true, bad)
        } else {
            (is_ident_char(c), false, bad || (ident && gap && is_ident_char(c)))
        }
    }
}

/// Whitespace stands between two identifier characters, as in `a b`.
pub open spec fn splits_ident(s: Seq<char>) -> bool {
    scan_gaps(s).2
}

/// First position at or after `i` that does not hold an identifier character.
pub open spec fn ident_end(s: Seq<char>, i: int) -> int
    decreases s.len() - i,
{
    if i < 0 || i >= s.len() || !is_ident_char(s[i]) {
        i
    } else {
        ident_end(s, i + 1)
    }
}

pub open spec fn is_sep(s: Seq<char>, j: int) -> bool {
    0 <= j && j + 1 < s.len() && s[j] == ':' && s[j + 1] == ':'
}

/// Puts `seg` in front of every alternative.
pub open spec fn prefix_all(seg: Seq<char>, alts: Seq<PathView>) -> Seq<PathView> {
    alts.map_values(|a: PathView| seq![seg] + a)
}

/// Parses `seg (:: seg)* (:: { tree, ... } | :: *)?` at `i`: the alternatives
/// it denotes and the position after it. A lone `self` denotes the path that
/// leads to it; `*` stands for any one segment.
pub open spec fn parse_tree(s: Seq<char>, i: int) -> Option<(Seq<PathView>, int)>
    decreases s.len() - i, 1int,
{
    if i < 0 || i >= s.len() {
        None
    } else {
        let e = ident_end(s, i);
        if e <= i {
            None
        } else {
            let seg = s.subrange(i, e);
            if is_sep(s, e) {
                let j = e + 2;
                if j < s.len() && s[j] == '{' {
                    match parse_list(s, j + 1) {
                        Some((alts, k)) => if 0 <= k < s.len() && s[k] == '}' {
                            Some((prefix_all(seg, alts), k + 1))
                        } else {
                            None
                        },
                        None => None,
                    }
                } else if j < s.len() && s[j] == '*' {
                    Some((seq![seq![seg, seq!['*']]], j + 1))
                } else {
                    match parse_tree(s, j) {
                        Some((alts, k)) => Some((prefix_all(seg, alts), k)),
                        None => None,
                    }
                }
            } else if seg == seq!['s', 'e', 'l', 'f'] {
                Some((seq![Seq::<Seq<char>>::empty()], e))
            } else {
                Some((seq![seq![seg]], e))
            }
        }
    }
}

/// Parses `tree (, tree)*` at `i`.
pub open spec fn parse_list(s: Seq<char>, i: int) -> Option<(Seq<PathView>, int)>
    decreases s.len() - i, 2int,
{
    if i < 0 || i >= s.len() {
        None
    } else {
        match parse_tree(s, i) {
            Some((a, k)) => if i <= k < s.len() && s[k] == ',' {
                match parse_list(s, k + 1) {
                    Some((b, m)) => Some((a + b, m)),
                    None => None,
                }
            } else {
                Some((a, k))
            },
            None => None,
        }
    }
}

/// The alternatives denoted by a focus specification such as
/// `crate::m::{A, B::{c, d}}`, or `None` where it is malformed.
pub open spec fn parse_spec(s: Seq<char>) -> Option<Seq<PathView>> {
    let t = strip_spaces(s);
    if splits_ident(s) {
        None
    } else {
        match parse_tree(t, 0) {
        Some((alts, k)) => if k == t.len() {
            Some(alts)
        } else {
            None
        },
        None => None,
        }
    }
}

/// A pattern segment matches a path segment: `*` matches any.
pub open spec fn seg_matches(a: Seq<char>, p: Seq<char>) -> bool {
    a == seq!['*'] || a == p
}

pub open spec fn alt_matches(a: PathView, path: PathView) -> bool {
    a.len() == path.len() && forall|k: int| 0 <= k < a.len() ==> seg_matches(a[k], path[k])
}

/// A path matches when it matches one of the alternatives, segment by segment.
pub open spec fn matches_spec(alts: Seq<PathView>, path: PathView) -> bool {
    exists|i: int| 0 <= i < alts.len() && alt_matches(alts[i], path)
}

pub open spec fn seg_view(text: Seq<char>, r: (usize, usize)) -> Seq<char> {
    text.subrange(r.0 as int, r.1 as int)
}

pub open spec fn alt_view(text: Seq<char>, a: Seq<(usize, usize)>) -> PathView {
    a.map_values(|r: (usize, usize)| seg_view(text, r))
}

pub open spec fn alts_view(text: Seq<char>, v: Seq<Vec<(usize, usize)>>) -> Seq<PathView> {
    v.map_values(|a: Vec<(usize, usize)>| alt_view(text, a@))
}

pub open spec fn range_ok(r: (usize, usize), len: nat) -> bool {
    r.0 <= r.1 <= len
}

pub open spec fn ranges_ok(len: nat, v: Seq<Vec<(usize, usize)>>) -> bool {
    forall|j: int, m: int|
        0 <= j < v.len() && 0 <= m < v[j]@.len() ==> range_ok(#[trigger] v[j]@[m], len)
}

/// A parsed focus specification: its characters, and each alternative as
/// ranges of segments in them.
pub struct PathPattern {
    text: Vec<char>,
    alts: Vec<Vec<(usize, usize)>>,
}

impl PathPattern {
    pub closed spec fn view(&self) -> Seq<PathView> {
        alts_view(self.text@, self.alts@)
    }

    pub closed spec fn wf(&self) -> bool {
        ranges_ok(self.text@.len(), self.alts@)
    }

    /// Parses a focus specification; `None` where it is malformed.
    pub fn parse(s: &String) -> (r: Option<PathPattern>)
        ensures
            r.is_some() == parse_spec(s@).is_some(),
            r.is_some() ==> r.unwrap().wf() && r.unwrap()@ == parse_spec(s@).unwrap(),
    {
        let (text, split) = strip(s);
        if split {
            return None;
        }
        match parse_tree_at(&text, 0) {
            Some((alts, k)) => {
                if k == text.len() {
                    Some(PathPattern { text, alts })
                } else {
                    None
                }
            },
            None => None,
        }
    }

    /// Whether `path` is one of the pattern's alternatives.
    pub fn matches(&self, path: &Vec<String>) -> (r: bool)
        requires
            self.wf(),
        ensures
            r == matches_spec(self@, path_view(path@)),
    {
        let mut i: usize = 0;
        while i < self.alts.len()
            invariant
                self.wf(),
                i <= self.alts@.len(),
                forall|j: int| 0 <= j < i ==> !alt_matches(self@[j], path_view(path@)),
            decreases self.alts@.len() - i,
        {
            if alt_equals(&self.text, &self.alts[i], path) {
                assert(alt_matches(self@[i as int], path_view(path@)));
                return true;
            }
            i = i + 1;
        }
        false
    }
}

pub open spec fn path_view(p: Seq<String>) -> PathView {
    p.map_values(|s: String| s@)
}

fn strip(s: &String) -> (r: (Vec<char>, bool))
    ensures
        r.0@ == strip_spaces(s@),
        r.1 == splits_ident(s@),
{
    let n = s.as_str().unicode_len();
    let mut t: Vec<char> = Vec::new();
    let mut ident = false;
    let mut gap = false;
    let mut bad = false;
    let mut i: usize = 0;
    while i < n
        invariant
            n == s@.len(),
            i <= n,
            t@ == strip_spaces(s@.subrange(0, i as int)),
            (ident, gap, bad) == scan_gaps(s@.subrange(0, i as int)),
        decreases n - i,
    {
        let c = s.as_str().get_char(i);
        assert(s@.subrange(0, i + 1).drop_last() == s@.subrange(0, i as int));
        if c == ' ' || c == '\t' || c == '\n' || c == '\r' {
            gap = true;
        } else {
            t.push(c);
            let id = ('a' <= c && c <= 'z') || ('A' <= c && c <= 'Z') || ('0' <= c && c <= '9')
                || c == '_';
            bad = bad || (ident && gap && id);
            ident = id;
            gap = false;
        }
        i = i + 1;
    }
    assert(s@.subrange(0, n as int) == s@);
    (t, bad)
}

fn seg_equals(text: &Vec<char>, r: (usize, usize), seg: &String) -> (b: bool)
    requires
        r.0 <= r.1 <= text@.len(),
    ensures
        b == seg_matches(seg_view(text@, r), seg@),
{
    if r.1 - r.0 == 1 && text[r.0] == '*' {
        assert(seg_view(text@, r) =~= seq!['*']);
        return true;
    }
    assert(seg_view(text@, r) != seq!['*']) by {
        let w = seq!['*'];
        assert(w.len() == 1 && w[0] == '*');
        if seg_view(text@, r) == w {
            assert(seg_view(text@, r)[0] == text@[r.0 as int]);
        }
    }
    let n = seg.as_str().unicode_len();
    if r.1 - r.0 != n {
        assert(seg_view(text@, r).len() != seg@.len());
        return false;
    }
    let mut m: usize = 0;
    while m < n
        invariant
            r.0 <= r.1 <= text@.len(),
            r.1 - r.0 == n,
            n == seg@.len(),
            m <= n,
            seg_view(text@, r) != seq!['*'],
            forall|x: int| 0 <= x < m ==> text@[r.0 + x] == seg@[x],
        decreases n - m,
    {
        if text[r.0 + m] != seg.as_str().get_char(m) {
            assert(seg_view(text@, r)[m as int] != seg@[m as int]);
            return false;
        }
        m = m + 1;
    }
    assert(seg_view(text@, r) =~= seg@);
    true
}

fn alt_equals(text: &Vec<char>, a: &Vec<(usize, usize)>, path: &Vec<String>) -> (b: bool)
    requires
        forall|m: int| 0 <= m < a@.len() ==> (#[trigger] a@[m]).0 <= a@[m].1 <= text@.len(),
    ensures
        b == alt_matches(alt_view(text@, a@), path_view(path@)),
{
    if a.len() != path.len() {
        return false;
    }
    let mut m: usize = 0;
    while m < a.len()
        invariant
            forall|m: int| 0 <= m < a@.len() ==> (#[trigger] a@[m]).0 <= a@[m].1 <= text@.len(),
            a@.len() == path@.len(),
            m <= a@.len(),
            forall|x: int| 0 <= x < m ==> seg_matches(seg_view(text@, a@[x]), path@[x]@),
        decreases a@.len() - m,
    {
        if !seg_equals(text, a[m], &path[m]) {
            assert(!seg_matches(alt_view(text@, a@)[m as int], path_view(path@)[m as int]));
            return false;
        }
        m = m + 1;
    }
    true
}

fn scan_ident(t: &Vec<char>, i: usize) -> (e: usize)
    requires
        i <= t@.len(),
    ensures
        e == ident_end(t@, i as int),
        i <= e <= t@.len(),
    decreases t@.len() - i,
{
    if i >= t.len() {
        return i;
    }
    let c = t[i];
    if ('a' <= c && c <= 'z') || ('A' <= c && c <= 'Z') || ('0' <= c && c <= '9') || c == '_' {
        scan_ident(t, i + 1)
    } else {
        i
    }
}

fn prefix_each(t: &Vec<char>, seg: (usize, usize), alts: Vec<Vec<(usize, usize)>>) -> (r: Vec<
    Vec<(usize, usize)>,
>)
    requires
        seg.0 <= seg.1 <= t@.len(),
        ranges_ok(t@.len(), alts@),
    ensures
        ranges_ok(t@.len(), r@),
        alts_view(t@, r@) == prefix_all(seg_view(t@, seg), alts_view(t@, alts@)),
{
    let mut r: Vec<Vec<(usize, usize)>> = Vec::new();
    let mut j: usize = 0;
    while j < alts.len()
        invariant
            seg.0 <= seg.1 <= t@.len(),
            ranges_ok(t@.len(), alts@),
            ranges_ok(t@.len(), r@),
            j <= alts@.len(),
            r@.len() == j,
            forall|x: int|
                0 <= x < j ==> alt_view(t@, r@[x]@) == seq![seg_view(t@, seg)] + alt_view(
                    t@,
                    alts@[x]@,
                ),
        decreases alts@.len() - j,
    {
        let a = &alts[j];
        let mut b: Vec<(usize, usize)> = Vec::new();
        b.push(seg);
        let mut m: usize = 0;
        while m < a.len()
            invariant
                seg.0 <= seg.1 <= t@.len(),
                forall|y: int| 0 <= y < a@.len() ==> (#[trigger] a@[y]).0 <= a@[y].1 <= t@.len(),
                m <= a@.len(),
                b@ == seq![seg] + a@.subrange(0, m as int),
            decreases a@.len() - m,
        {
            b.push(a[m]);
            m = m + 1;
            assert(b@ =~= seq![seg] + a@.subrange(0, m as int));
        }
        assert(a@.subrange(0, a@.len() as int) == a@);
        assert(alt_view(t@, b@) =~= seq![seg_view(t@, seg)] + alt_view(t@, a@));
        r.push(b);
        j = j + 1;
    }
    assert(alts_view(t@, r@) =~= prefix_all(seg_view(t@, seg), alts_view(t@, alts@)));
    r
}

fn parse_tree_at(t: &Vec<char>, i: usize) -> (r: Option<(Vec<Vec<(usize, usize)>>, usize)>)
    requires
        i <= t@.len(),
    ensures
        r.is_some() == parse_tree(t@, i as int).is_some(),
        r.is_some() ==> {
            let (v, k) = r.unwrap();
            let (alts, k2) = parse_tree(t@, i as int).unwrap();
            &&& ranges_ok(t@.len(), v@)
            &&& alts_view(t@, v@) == alts
            &&& k == k2
            &&& k <= t@.len()
        },
    decreases t@.len() - i, 1int,
{
    if i >= t.len() {
        return None;
    }
    let e = scan_ident(t, i);
    if e <= i {
        return None;
    }
    let seg = (i, e);
    if t.len() - e > 1 && t[e] == ':' && t[e + 1] == ':' {
        let j = e + 2;
        if j < t.len() && t[j] == '{' {
            match parse_list_at(t, j + 1) {
                Some((alts, k)) => {
                    if k < t.len() && t[k] == '}' {
                        Some((prefix_each(t, seg, alts), k + 1))
                    } else {
                        None
                    }
                },
                None => None,
            }
        } else if j < t.len() && t[j] == '*' {
            let mut a: Vec<(usize, usize)> = Vec::new();
            a.push(seg);
            a.push((j, j + 1));
            let mut v: Vec<Vec<(usize, usize)>> = Vec::new();
            v.push(a);
            assert(seg_view(t@, (j, (j + 1) as usize)) =~= seq!['*']);
            assert(alt_view(t@, v@[0]@) =~= seq![seg_view(t@, seg), seq!['*']]);
            assert(alts_view(t@, v@) =~= seq![seq![seg_view(t@, seg), seq!['*']]]);
            assert(range_ok(v@[0]@[1], t@.len()));
            Some((v, j + 1))
        } else {
            match parse_tree_at(t, j) {
                Some((alts, k)) => Some((prefix_each(t, seg, alts), k)),
                None => None,
            }
        }
    } else if e - i == 4 && t[i] == 's' && t[i + 1] == 'e' && t[i + 2] == 'l' && t[i + 3] == 'f' {
        let mut v: Vec<Vec<(usize, usize)>> = Vec::new();
        v.push(Vec::new());
        assert(seg_view(t@, seg) =~= seq!['s', 'e', 'l', 'f']);
        assert(alt_view(t@, v@[0]@) =~= Seq::<Seq<char>>::empty());
        assert(alts_view(t@, v@) =~= seq![Seq::<Seq<char>>::empty()]);
        Some((v, e))
    } else {
        assert(seg_view(t@, seg) != seq!['s', 'e', 'l', 'f']) by {
            let w = seq!['s', 'e', 'l', 'f'];
            assert(w.len() == 4 && w[0] == 's' && w[1] == 'e' && w[2] == 'l' && w[3] == 'f');
            if seg_view(t@, seg) == w {
                assert(e - i == 4);
                assert(seg_view(t@, seg)[0] == t@[i as int]);
                assert(seg_view(t@, seg)[1] == t@[i + 1]);
                assert(seg_view(t@, seg)[2] == t@[i + 2]);
                assert(seg_view(t@, seg)[3] == t@[i + 3]);
            }
        }
        let mut a: Vec<(usize, usize)> = Vec::new();
        a.push(seg);
        let mut v: Vec<Vec<(usize, usize)>> = Vec::new();
        v.push(a);
        assert(alt_view(t@, v@[0]@) =~= seq![seg_view(t@, seg)]);
        assert(alts_view(t@, v@) =~= seq![seq![seg_view(t@, seg)]]);
        Some((v, e))
    }
}

fn parse_list_at(t: &Vec<char>, i: usize) -> (r: Option<(Vec<Vec<(usize, usize)>>, usize)>)
    requires
        i <= t@.len(),
    ensures
        r.is_some() == parse_list(t@, i as int).is_some(),
        r.is_some() ==> {
            let (v, k) = r.unwrap();
            let (alts, k2) = parse_list(t@, i as int).unwrap();
            &&& ranges_ok(t@.len(), v@)
            &&& alts_view(t@, v@) == alts
            &&& k == k2
            &&& k <= t@.len()
        },
    decreases t@.len() - i, 2int,
{
    if i >= t.len() {
        return None;
    }
    match parse_tree_at(t, i) {
        Some((a, k)) => {
            if i <= k && k < t.len() && t[k] == ',' {
                match parse_list_at(t, k + 1) {
                    Some((b, m)) => {
                        let mut a = a;
                        let mut b = b;
                        let ghost va = a@;
                        let ghost vb = b@;
                        a.append(&mut b);
                        assert(a@ == va + vb);
                        assert forall|x: int| 0 <= x < a@.len() implies #[trigger] a@[x] == (
                        if x < va.len() {
                            va[x]
                        } else {
                            vb[x - va.len()]
                        }) by {}
                        assert forall|x: int, m: int|
                            0 <= x < a@.len() && 0 <= m < a@[x]@.len() implies range_ok(
                            #[trigger] a@[x]@[m],
                            t@.len(),
                        ) by {
                            if x < va.len() {
                                assert(a@[x] == va[x]);
                                assert(range_ok(va[x]@[m], t@.len()));
                            } else {
                                assert(a@[x] == vb[x - va.len()]);
                                assert(range_ok(vb[x - va.len()]@[m], t@.len()));
                            }
                        }
                        assert(ranges_ok(t@.len(), a@));
                        assert(alts_view(t@, a@) == parse_list(t@, i as int).unwrap().0);
                        assert(alts_view(t@, a@) =~= alts_view(t@, va) + alts_view(t@, vb));
                        Some((a, m))
                    },
                    None => None,
                }
            } else {
                Some((a, k))
            }
        },
        None => None,
    }
}

} // verus!
