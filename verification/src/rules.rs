use vstd::prelude::*;
use vstd::string::*;

verus! {

/// A character that may appear in a domain candidate inside a rule
/// expression: lowercase ASCII letter, digit, comma or dot.
pub open spec fn is_domain_char(c: char) -> bool {
    let u = c as u32;
    (97 <= u && u <= 122) || (48 <= u && u <= 57) || u == 44 || u == 46
}

/// The opening marker of a Host clause in a rule expression.
pub open spec fn host_marker() -> Seq<char> {
    seq!['H', 'o', 's', 't', '(', '`']
}

/// Length of the longest prefix of `s` made of domain characters.
pub open spec fn domain_run_len(s: Seq<char>) -> int
    decreases s.len(),
{
    if s.len() > 0 && is_domain_char(s[0]) {
        1 + domain_run_len(s.drop_first())
    } else {
        0
    }
}

/// Whether a complete Host clause stands at the very start of `s`:
/// the marker, one or more domain characters, a backtick and a
/// closing parenthesis.
pub open spec fn match_at_start(s: Seq<char>) -> bool {
    s.len() >= 8 && s.subrange(0, 6) == host_marker() && {
        let k = domain_run_len(s.skip(6));
        k >= 1 && 8 + k <= s.len() && s[6 + k] == '`' && s[7 + k] == ')'
    }
}

/// All domain candidates embedded in a rule expression, in order of
/// appearance: the contents of every complete Host clause.
pub open spec fn extract_domains(s: Seq<char>) -> Seq<Seq<char>>
    decreases s.len(),
{
    if s.len() == 0 {
        Seq::empty()
    } else if match_at_start(s) {
        let k = domain_run_len(s.skip(6));
        seq![s.subrange(6, 6 + k)] + extract_domains(s.skip(8 + k))
    } else {
        extract_domains(s.drop_first())
    }
}

proof fn lemma_run_len_characterization(t: Seq<char>, k: int)
    requires
        0 <= k <= t.len(),
        forall|j: int| 0 <= j < k ==> is_domain_char(t[j]),
        k < t.len() ==> !is_domain_char(t[k]),
    ensures
        domain_run_len(t) == k,
    decreases k,
{
    if k == 0 {
    } else {
        assert(is_domain_char(t[0]));
        lemma_run_len_characterization(t.drop_first(), k - 1);
    }
}

fn is_domain_char_exec(c: char) -> (b: bool)
    ensures
        b == is_domain_char(c),
{
    let u = c as u32;
    (97 <= u && u <= 122) || (48 <= u && u <= 57) || u == 44 || u == 46
}

/// Copy the characters of a string slice into a vector.
fn str_chars(s: &str) -> (r: Vec<char>)
    ensures
        r@ == s@,
{
    let n = s.unicode_len();
    let mut r: Vec<char> = Vec::new();
    let mut i: usize = 0;
    while i < n
        invariant
            n == s@.len(),
            0 <= i <= n,
            r@ == s@.subrange(0, i as int),
        decreases n - i,
    {
        r.push(s.get_char(i));
        assert(r@ =~= s@.subrange(0, i + 1));
        i += 1;
    }
    assert(r@ =~= s@);
    r
}

/// Look for a complete Host clause starting exactly at index `i`;
/// on success return the length of its domain.
fn match_here(cs: &Vec<char>, i: usize) -> (r: Option<usize>)
    requires
        i < cs@.len(),
    ensures
        match r {
            Some(k) => 1 <= k && i + 8 + k <= cs@.len() && match_at_start(cs@.skip(i as int))
                && k as int == domain_run_len(cs@.skip(i as int + 6)),
            None => !match_at_start(cs@.skip(i as int)),
        },
{
    let ghost t = cs@.skip(i as int);
    let n = cs.len();
    if n - i < 8 {
        return None;
    }
    assert(t.len() == n - i);
    if !(cs[i] == 'H' && cs[i + 1] == 'o' && cs[i + 2] == 's' && cs[i + 3] == 't' && cs[i + 4]
        == '(' && cs[i + 5] == '`') {
        proof {
            if t.subrange(0, 6) == host_marker() {
                assert(t.subrange(0, 6)[0] == 'H');
                assert(t.subrange(0, 6)[1] == 'o');
                assert(t.subrange(0, 6)[2] == 's');
                assert(t.subrange(0, 6)[3] == 't');
                assert(t.subrange(0, 6)[4] == '(');
                assert(t.subrange(0, 6)[5] == '`');
            }
        }
        return None;
    }
    assert(t.subrange(0, 6) =~= host_marker());
    let mut k: usize = 0;
    while i + 6 + k < n && is_domain_char_exec(cs[i + 6 + k])
        invariant
            n == cs@.len(),
            i + 8 <= n,
            i + 6 + k <= n,
            forall|j: int| 0 <= j < k ==> is_domain_char(#[trigger] cs@[i + 6 + j]),
        decreases n - (i + 6 + k),
    {
        k += 1;
    }
    proof {
        let t6 = cs@.skip(i as int + 6);
        assert(t.skip(6) =~= t6);
        assert(t6.len() == n - i - 6);
        assert forall|j: int| 0 <= j < k implies is_domain_char(t6[j]) by {
            assert(t6[j] == cs@[i + 6 + j]);
        }
        if (k as int) < t6.len() {
            assert(t6[k as int] == cs@[i + 6 + k]);
        }
        lemma_run_len_characterization(t6, k as int);
    }
    if k == 0 {
        return None;
    }
    if k > (n - i) - 8 {
        return None;
    }
    if cs[i + 6 + k] == '`' && cs[i + 7 + k] == ')' {
        assert(t[6 + k] == '`');
        assert(t[7 + k] == ')');
        assert(match_at_start(t));
        Some(k)
    } else {
        assert(!(t[6 + k] == '`' && t[7 + k] == ')'));
        None
    }
}

/// Extract all domain candidates from a rule expression: the contents
/// of every complete Host clause, in order of appearance, and nothing
/// else.
pub fn extract_rule_domains(rule: &str) -> (r: Vec<String>)
    ensures
        r.deep_view() == extract_domains(rule@),
{
    let cs = str_chars(rule);
    let n = cs.len();
    let mut out: Vec<String> = Vec::new();
    let mut i: usize = 0;
    proof {
        assert(out.deep_view() =~= Seq::<Seq<char>>::empty());
        assert(cs@.skip(0) =~= cs@);
        assert(Seq::<Seq<char>>::empty() + extract_domains(cs@) =~= extract_domains(cs@));
    }
    while i < n
        invariant
            cs@ == rule@,
            n == cs@.len(),
            0 <= i <= n,
            out.deep_view() + extract_domains(cs@.skip(i as int)) == extract_domains(cs@),
        decreases n - i,
    {
        let ghost prev = out.deep_view();
        match match_here(&cs, i) {
            Some(k) => {
                let ghost s_i = cs@.skip(i as int);
                let d = rule.substring_char(i + 6, i + 6 + k);
                let ds = String::from_str(d);
                proof {
                    assert(s_i.skip(6) =~= cs@.skip(i as int + 6));
                    assert(s_i.subrange(6, 6 + k) =~= cs@.subrange(i + 6, i + 6 + k));
                    assert(s_i.skip(8 + k) =~= cs@.skip(i as int + 8 + k));
                    assert(ds@ == s_i.subrange(6, 6 + k));
                    assert(s_i.len() != 0);
                    assert(domain_run_len(s_i.skip(6)) == k as int);
                    assert(extract_domains(s_i) == seq![s_i.subrange(6, 6 + k)]
                        + extract_domains(s_i.skip(8 + k)));
                }
                out.push(ds);
                proof {
                    assert(out.deep_view() =~= prev + seq![ds@]);
                    assert(prev + (seq![ds@] + extract_domains(cs@.skip(i as int + 8 + k))) =~= (
                    prev + seq![ds@]) + extract_domains(cs@.skip(i as int + 8 + k)));
                    assert(seq![s_i.subrange(6, 6 + k)] =~= seq![ds@]);
                }
                i = i + 8 + k;
            },
            None => {
                proof {
                    assert(cs@.skip(i as int).drop_first() =~= cs@.skip(i as int + 1));
                    if cs@.skip(i as int).len() != 0 {
                        assert(extract_domains(cs@.skip(i as int)) == extract_domains(
                            cs@.skip(i as int + 1),
                        ));
                    }
                }
                i = i + 1;
            },
        }
    }
    proof {
        assert(cs@.skip(n as int) =~= Seq::<char>::empty());
        assert(out.deep_view() + Seq::<Seq<char>>::empty() =~= out.deep_view());
    }
    out
}

} // verus!
