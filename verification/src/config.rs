//! Backend settings that the host hands to each hook.
use crate::text::{
    is_digit, join_with, lemma_join_split, lemma_split_append, lemma_split_without_sep, split_on, split_text, views,
};
use vstd::prelude::*;

verus! {

/// Every character is an ASCII digit.
pub open spec fn all_digits(s: Seq<char>) -> bool {
    forall|i: int| 0 <= i < s.len() ==> #[trigger] is_digit(s[i])
}

/// A Python 3 version of two or three numeric parts, such as `3.12` or `3.12.9`.
pub open spec fn valid_python(p: Seq<char>) -> bool {
    let parts = split_on(p, '.');
    &&& 2 <= parts.len() <= 3
    &&& parts[0] == seq!['3']
    &&& forall|i: int| 0 <= i < parts.len() ==> #[trigger] parts[i].len() > 0 && all_digits(parts[i])
}

/// The error for a `python` setting that is not such a version.
pub open spec fn python_message() -> Seq<char> {
    "The python setting must be a Python 3 version, such as 3.12 or 3.12.9."@
}

/// Backend settings.
#[derive(Debug)]
pub struct UvBackendConfig {
    /// Managed Python version used to create each tool environment.
    pub python: String,
}

impl Default for UvBackendConfig {
    fn default() -> (r: Self)
        ensures
            r.python@ == "3.12"@,
    {
        UvBackendConfig { python: String::from_str("3.12") }
    }
}

/// Whether every character of `s` is an ASCII digit.
pub fn is_all_digits(s: &str) -> (r: bool)
    ensures
        r == all_digits(s@),
{
    let n = s.unicode_len();
    let mut i: usize = 0;
    while i < n
        invariant
            n == s@.len(),
            i <= n,
            forall|k: int| 0 <= k < i ==> #[trigger] is_digit(s@[k]),
        decreases n - i,
    {
        let c = s.get_char(i);
        if !('0' <= c && c <= '9') {
            assert(!is_digit(s@[i as int]));
            return false;
        }
        i = i + 1;
    }
    true
}

impl UvBackendConfig {
    /// Accepts a Python 3 version only, never a path or further arguments.
    pub fn validate(&self) -> (r: Result<(), String>)
        ensures
            r is Ok <==> valid_python(self.python@),
            r matches Err(e) ==> e@ == python_message(),
    {
        let parts = split_text(self.python.as_str(), '.');
        let ghost ps = views(parts@);
        let fail = String::from_str("The python setting must be a Python 3 version, such as 3.12 or 3.12.9.");
        if parts.len() < 2 || parts.len() > 3 {
            return Err(fail);
        }
        let three = String::from_str("3");
        assert(three@ == ps[0] ==> ps[0] == seq!['3']) by {
            reveal_strlit("3");
        }
        assert(ps[0] == seq!['3'] ==> three@ == ps[0]) by {
            reveal_strlit("3");
        }
        if parts[0] != three {
            return Err(fail);
        }
        let mut i: usize = 0;
        while i < parts.len()
            invariant
                ps == views(parts@),
                ps == split_on(self.python@, '.'),
                fail@ == python_message(),
                2 <= ps.len() <= 3,
                ps[0] == seq!['3'],
                i <= parts.len(),
                forall|k: int| 0 <= k < i ==> #[trigger] ps[k].len() > 0 && all_digits(ps[k]),
            decreases parts.len() - i,
        {
            if parts[i].as_str().unicode_len() == 0 || !is_all_digits(parts[i].as_str()) {
                assert(!(ps[i as int].len() > 0 && all_digits(ps[i as int])));
                return Err(fail);
            }
            i = i + 1;
        }
        Ok(())
    }
}


/// The default setting is itself a valid Python version.
pub proof fn law_default_python_valid()
    ensures
        valid_python("3.12"@),
{
    reveal_strlit("3.12");
    let p = "3.12"@;
    assert(p.len() == 4);
    assert(p.take(1) =~= seq!['3']);
    assert(p.take(2) =~= seq!['3', '.']);
    assert(p.take(3) =~= seq!['3', '.', '1']);
    assert(p.take(4) =~= p);
    assert(split_on(p.take(1).drop_last(), '.') =~= seq![Seq::<char>::empty()]);
    assert(p.take(1).drop_last() =~= p.take(0));
    assert(p.take(2).drop_last() =~= p.take(1));
    assert(p.take(3).drop_last() =~= p.take(2));
    assert(p.drop_last() =~= p.take(3));
    assert(split_on(p.take(1), '.') =~= seq![seq!['3']]);
    assert(split_on(p.take(2), '.') =~= seq![seq!['3'], Seq::<char>::empty()]);
    assert(split_on(p.take(3), '.') =~= seq![seq!['3'], seq!['1']]);
    assert(p.last() == '2');
    let prev = split_on(p.drop_last(), '.');
    assert(prev =~= seq![seq!['3'], seq!['1']]);
    assert(prev.last().push('2') =~= seq!['1', '2']);
    assert(prev.update(1, seq!['1', '2']) =~= seq![seq!['3'], seq!['1', '2']]);
    assert(split_on(p, '.') =~= seq![seq!['3'], seq!['1', '2']]);
    let parts = split_on(p, '.');
    assert(all_digits(parts[0]));
    assert(all_digits(parts[1]));
}


proof fn lemma_digits_no_dot(a: Seq<char>)
    requires
        all_digits(a),
    ensures
        !a.contains('.'),
{
    if a.contains('.') {
        let i = choose|i: int| 0 <= i < a.len() && a[i] == '.';
        assert(is_digit(a[i]));
    }
}

/// The accepted settings are exactly `3.` followed by one or two
/// dot-separated runs of ASCII digits, such as `3.12` or `3.12.9`.
pub proof fn law_python_setting_form(p: Seq<char>, a: Seq<char>, b: Seq<char>)
    requires
        a.len() > 0,
        b.len() > 0,
        forall|i: int| 0 <= i < a.len() ==> is_digit(#[trigger] a[i]),
        forall|i: int| 0 <= i < b.len() ==> is_digit(#[trigger] b[i]),
    ensures
        valid_python(seq!['3', '.'] + a),
        valid_python(seq!['3', '.'] + a + seq!['.'] + b),
        valid_python(p) ==> exists|x: Seq<char>, y: Seq<char>|
            x.len() > 0 && y.len() > 0 && #[trigger] all_digits(x) && #[trigger] all_digits(y) && (p == seq!['3', '.']
                + x || p == seq!['3', '.'] + x + seq!['.'] + y),
{
    lemma_digits_no_dot(a);
    lemma_digits_no_dot(b);
    let three = seq!['3'];
    assert(!three.contains('.')) by {
        if three.contains('.') {
            let i = choose|i: int| 0 <= i < three.len() && three[i] == '.';
        }
    }
    lemma_split_without_sep(three, '.');
    lemma_split_append(three, a, '.');
    assert(three + seq!['.'] + a =~= seq!['3', '.'] + a);
    let s2 = split_on(seq!['3', '.'] + a, '.');
    assert(s2 =~= seq![three, a]);
    lemma_split_append(seq!['3', '.'] + a, b, '.');
    let s3 = split_on(seq!['3', '.'] + a + seq!['.'] + b, '.');
    assert(s3 =~= seq![three, a, b]);
    assert(valid_python(seq!['3', '.'] + a));
    assert(valid_python(seq!['3', '.'] + a + seq!['.'] + b));
    if valid_python(p) {
        let parts = split_on(p, '.');
        lemma_join_split(p, '.');
        assert(parts[0].len() > 0 && all_digits(parts[0]));
        assert(parts[1].len() > 0 && all_digits(parts[1]));
        if parts.len() == 2 {
            assert(parts.drop_last() =~= seq![parts[0]]);
            assert(join_with(parts, '.') == join_with(parts.drop_last(), '.').push('.') + parts[1]);
            assert(p =~= seq!['3', '.'] + parts[1]);
            assert(all_digits(b));
            assert(p == seq!['3', '.'] + parts[1] || p == seq!['3', '.'] + parts[1] + seq!['.'] + b);
        } else {
            assert(parts[2].len() > 0 && all_digits(parts[2]));
            let d = parts.drop_last();
            assert(d.drop_last() =~= seq![parts[0]]);
            assert(join_with(d, '.') == join_with(d.drop_last(), '.').push('.') + d[1]);
            assert(join_with(parts, '.') == join_with(d, '.').push('.') + parts[2]);
            assert(p =~= seq!['3', '.'] + parts[1] + seq!['.'] + parts[2]);
            assert(p == seq!['3', '.'] + parts[1] || p == seq!['3', '.'] + parts[1] + seq!['.'] + parts[2]);
        }
    }
}

} // verus!
