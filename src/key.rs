use vstd::prelude::*;
use crate::error::ConfigurationError;

verus! {

/// One segment of a path: a field name or a sequence index.
#[derive(Debug, PartialEq)]
pub enum Key {
    Field(String),
    Index(usize),
}

/// Mathematical model of a [`Key`].
pub ghost enum KeyView {
    Field(Seq<char>),
    Index(usize),
}

impl View for Key {
    type V = KeyView;

    open spec fn view(&self) -> KeyView {
        match self {
            Key::Field(s) => KeyView::Field(s@),
            Key::Index(i) => KeyView::Index(*i),
        }
    }
}

/// An ordered sequence of path segments; the empty sequence addresses the node itself.
#[derive(Debug)]
pub struct CompoundKey {
    pub keys: Vec<Key>,
}

pub open spec fn keys_view(ks: Seq<Key>) -> Seq<KeyView> {
    ks.map_values(|k: Key| k@)
}

impl View for CompoundKey {
    type V = Seq<KeyView>;

    open spec fn view(&self) -> Seq<KeyView> {
        keys_view(self.keys@)
    }
}

/// The pieces of `s` between the dots; always at least one piece.
pub open spec fn split_dots(s: Seq<char>) -> Seq<Seq<char>>
    decreases s.len(),
{
    if s.len() == 0 {
        seq![seq![]]
    } else {
        let rest = split_dots(s.subrange(0, s.len() - 1));
        let c = s[s.len() - 1];
        if c == '.' {
            rest.push(seq![])
        } else {
            rest.update(rest.len() - 1, rest[rest.len() - 1].push(c))
        }
    }
}

pub open spec fn is_digit(c: char) -> bool {
    '0' <= c && c <= '9'
}

pub open spec fn all_digits(s: Seq<char>) -> bool {
    forall|i: int| 0 <= i < s.len() ==> is_digit(#[trigger] s[i])
}

pub open spec fn has_bracket(s: Seq<char>) -> bool {
    exists|i: int| 0 <= i < s.len() && (s[i] == '[' || s[i] == ']')
}

/// The number written by the decimal digits `s`.
pub open spec fn digits_value(s: Seq<char>) -> nat
    decreases s.len(),
{
    if s.len() == 0 {
        0
    } else {
        digits_value(s.subrange(0, s.len() - 1)) * 10 + (s[s.len() - 1] as nat - '0' as nat) as nat
    }
}

/// The index written by `s`, if `s` is a non-empty run of digits whose value fits in `usize`.
pub open spec fn index_of(s: Seq<char>) -> Option<usize> {
    if s.len() > 0 && all_digits(s) && digits_value(s) <= usize::MAX {
        Some(digits_value(s) as usize)
    } else {
        None
    }
}

/// One segment: `[n]` and a bare run of digits are indices; any other text
/// without brackets is a field name; the rest is malformed.
pub open spec fn parse_segment(seg: Seq<char>) -> Option<KeyView> {
    if seg.len() == 0 {
        None
    } else if seg[0] == '[' {
        if seg.len() >= 3 && seg[seg.len() - 1] == ']' {
            match index_of(seg.subrange(1, seg.len() - 1)) {
                Some(n) => Some(KeyView::Index(n)),
                None => None,
            }
        } else {
            None
        }
    } else if has_bracket(seg) {
        None
    } else if all_digits(seg) {
        match index_of(seg) {
            Some(n) => Some(KeyView::Index(n)),
            None => None,
        }
    } else {
        Some(KeyView::Field(seg))
    }
}

pub open spec fn parse_segments(segs: Seq<Seq<char>>) -> Option<Seq<KeyView>>
    decreases segs.len(),
{
    if segs.len() == 0 {
        Some(seq![])
    } else {
        match parse_segments(segs.subrange(0, segs.len() - 1)) {
            Some(ks) => match parse_segment(segs[segs.len() - 1]) {
                Some(k) => Some(ks.push(k)),
                None => None,
            },
            None => None,
        }
    }
}

/// The compound key written by `s`: the empty path is the empty key, any other
/// path is its dot-separated segments, each of which must parse.
pub open spec fn parse_path(s: Seq<char>) -> Option<Seq<KeyView>> {
    if s.len() == 0 {
        Some(seq![])
    } else {
        parse_segments(split_dots(s))
    }
}

proof fn lemma_digits_monotone(s: Seq<char>, i: int)
    requires
        0 <= i <= s.len(),
    ensures
        digits_value(s.subrange(0, i)) <= digits_value(s),
    decreases s.len() - i,
{
    if i < s.len() {
        lemma_digits_monotone(s, i + 1);
        assert(s.subrange(0, i + 1).subrange(0, i) =~= s.subrange(0, i));
    } else {
        assert(s.subrange(0, i) =~= s);
    }
}

/// Reads a non-empty run of decimal digits that fits in `usize`.
fn parse_index(s: &str) -> (r: Option<usize>)
    ensures
        r == index_of(s@),
{
    let n = s.unicode_len();
    if n == 0 {
        return None;
    }
    let mut v: usize = 0;
    let mut i: usize = 0;
    while i < n
        invariant
            n == s@.len(),
            i <= n,
            all_digits(s@.subrange(0, i as int)),
            v as nat == digits_value(s@.subrange(0, i as int)),
        decreases n - i,
    {
        let c = s.get_char(i);
        proof {
            assert(s@.subrange(0, i + 1).subrange(0, i as int) =~= s@.subrange(0, i as int));
        }
        if c < '0' || c > '9' {
            assert(!is_digit(s@[i as int]));
            return None;
        }
        let d = (c as u32 - '0' as u32) as usize;
        let m = v.checked_mul(10);
        if m.is_none() {
            proof {
                lemma_digits_monotone(s@, i + 1);
            }
            return None;
        }
        let w = m.unwrap().checked_add(d);
        if w.is_none() {
            proof {
                lemma_digits_monotone(s@, i + 1);
            }
            return None;
        }
        v = w.unwrap();
        i = i + 1;
        assert(all_digits(s@.subrange(0, i as int))) by {
            assert forall|j: int| 0 <= j < i implies is_digit(#[trigger] s@.subrange(0, i as int)[j]) by {
                if j < i - 1 {
                    assert(s@.subrange(0, i as int)[j] == s@.subrange(0, i - 1)[j]);
                }
            }
        }
    }
    assert(s@.subrange(0, n as int) =~= s@);
    Some(v)
}


/// Parses one segment of a path.
fn parse_segment_exec(seg: &str) -> (r: Option<Key>)
    ensures
        r matches Some(k) ==> parse_segment(seg@) == Some(k@),
        r is None ==> parse_segment(seg@) is None,
{
    let n = seg.unicode_len();
    if n == 0 {
        return None;
    }
    if seg.get_char(0) == '[' {
        if n >= 3 && seg.get_char(n - 1) == ']' {
            let inner = seg.substring_char(1, n - 1);
            return match parse_index(inner) {
                Some(i) => Some(Key::Index(i)),
                None => None,
            };
        }
        return None;
    }
    let mut digits = true;
    let mut i: usize = 0;
    while i < n
        invariant
            n == seg@.len(),
            n > 0,
            seg@[0] != '[',
            i <= n,
            forall|j: int| 0 <= j < i ==> seg@[j] != '[' && seg@[j] != ']',
            digits == all_digits(seg@.subrange(0, i as int)),
        decreases n - i,
    {
        let c = seg.get_char(i);
        if c == '[' || c == ']' {
            assert(has_bracket(seg@));
            return None;
        }
        proof {
            let p = seg@.subrange(0, i as int);
            let q = seg@.subrange(0, i + 1);
            assert(q =~= p.push(c));
            if all_digits(p) && is_digit(c) {
                assert forall|j: int| 0 <= j < q.len() implies is_digit(#[trigger] q[j]) by {
                    if j < i {
                        assert(q[j] == p[j]);
                    }
                }
            }
            if !is_digit(c) {
                assert(!is_digit(q[i as int]));
            }
            if !all_digits(p) {
                let j = choose|j: int| 0 <= j < p.len() && !is_digit(#[trigger] p[j]);
                assert(q[j] == p[j]);
            }
        }
        digits = digits && '0' <= c && c <= '9';
        i = i + 1;
    }
    assert(seg@.subrange(0, n as int) =~= seg@);
    if digits {
        match parse_index(seg) {
            Some(i) => Some(Key::Index(i)),
            None => None,
        }
    } else {
        Some(Key::Field(String::from_str(seg)))
    }
}

proof fn lemma_split_dots_push(s: Seq<char>, c: char)
    ensures
        split_dots(s.push(c)) == if c == '.' {
            split_dots(s).push(seq![])
        } else {
            split_dots(s).update(split_dots(s).len() - 1, split_dots(s)[split_dots(s).len() - 1].push(c))
        },
        split_dots(s).len() >= 1,
    decreases s.len(),
{
    assert(s.push(c).subrange(0, s.len() as int) =~= s);
    if s.len() > 0 {
        lemma_split_dots_push(s.subrange(0, s.len() - 1), s[s.len() - 1]);
        assert(s.subrange(0, s.len() - 1).push(s[s.len() - 1]) =~= s);
    }
}

proof fn lemma_parse_segments_push(segs: Seq<Seq<char>>, x: Seq<char>)
    ensures
        parse_segments(segs.push(x)) == match parse_segments(segs) {
            Some(ks) => match parse_segment(x) {
                Some(k) => Some(ks.push(k)),
                None => None,
            },
            None => None,
        },
{
    assert(segs.push(x).subrange(0, segs.len() as int) =~= segs);
}

impl CompoundKey {
    /// Parses a dot-separated path such as `a.b.0` or `a.[2].c`.
    pub fn parse(s: &str) -> (r: Result<CompoundKey, ConfigurationError>)
        ensures
            r matches Ok(k) ==> parse_path(s@) == Some(k@),
            r matches Err(e) ==> parse_path(s@) is None && e is KeyParseError && e->KeyParseError_0@ == s@,
    {
        let n = s.unicode_len();
        let mut keys: Vec<Key> = Vec::new();
        if n == 0 {
            assert(keys_view(keys@) =~= seq![]);
            return Ok(CompoundKey { keys });
        }
        let mut failed = false;
        let mut start: usize = 0;
        let mut i: usize = 0;
        proof {
            assert(s@.subrange(0, 0) =~= seq![]);
            assert(split_dots(seq![]).subrange(0, 0) =~= seq![]);
        }
        loop
            invariant_except_break
                ({
                    let sd = split_dots(s@.subrange(0, i as int));
                    &&& sd.len() >= 1
                    &&& sd[sd.len() - 1] == s@.subrange(start as int, i as int)
                    &&& parse_segments(sd.subrange(0, sd.len() - 1)) == if failed {
                        None
                    } else {
                        Some(keys_view(keys@))
                    }
                }),
            invariant
                n == s@.len(),
                n > 0,
                start <= i,
                i <= n,
            ensures
                parse_segments(split_dots(s@)) == if failed {
                    None
                } else {
                    Some(keys_view(keys@))
                },
            decreases n - i,
        {
            let ghost sd = split_dots(s@.subrange(0, i as int));
            if i == n || s.get_char(i) == '.' {
                let seg = s.substring_char(start, i);
                let parsed = parse_segment_exec(seg);
                proof {
                    lemma_parse_segments_push(sd.subrange(0, sd.len() - 1), seg@);
                    assert(sd.subrange(0, sd.len() - 1).push(seg@) =~= sd);
                }
                match parsed {
                    Some(k) => {
                        if !failed {
                            let ghost before = keys@;
                            keys.push(k);
                            assert(keys_view(keys@) =~= keys_view(before).push(k@));
                        }
                    },
                    None => {
                        failed = true;
                    },
                }
                if i < n {
                    proof {
                        lemma_split_dots_push(s@.subrange(0, i as int), '.');
                        assert(s@.subrange(0, i + 1) =~= s@.subrange(0, i as int).push('.'));
                        let nd = split_dots(s@.subrange(0, i + 1));
                        assert(nd.subrange(0, nd.len() - 1) =~= sd);
                        assert(s@.subrange(i + 1, i + 1) =~= seq![]);
                    }
                } else {
                    assert(s@.subrange(0, n as int) =~= s@);
                }
                if i == n {
                    break;
                }
                start = i + 1;
            } else {
                proof {
                    let c = s@[i as int];
                    lemma_split_dots_push(s@.subrange(0, i as int), c);
                    assert(s@.subrange(0, i + 1) =~= s@.subrange(0, i as int).push(c));
                    let nd = split_dots(s@.subrange(0, i + 1));
                    assert(nd.subrange(0, nd.len() - 1) =~= sd.subrange(0, sd.len() - 1));
                    assert(s@.subrange(start as int, i + 1) =~= s@.subrange(start as int, i as int).push(c));
                }
            }
            i = i + 1;
        }
        if failed {
            Err(ConfigurationError::KeyParseError(String::from_str(s)))
        } else {
            Ok(CompoundKey { keys })
        }
    }
}

} // verus!
