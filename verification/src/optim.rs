//! Peephole shrinking of brainfuck text: strip everything that is not
//! one of the eight commands, then delete the cancelling pairs `><`,
//! `<>`, `+-`, `-+` and collapse `[-][-]` to `[-]`, repeating until
//! nothing changes. Each rule is neutral on any program whose output
//! is observed only through `.`.

use vstd::prelude::*;
use vstd::string::StrSliceExecFns;
use vstd::string::StringExecFns;
use crate::utils::collect_chars;

verus! {

/// The eight brainfuck commands.
pub open spec fn is_bf_char(c: char) -> bool {
    c == '+' || c == '-' || c == '>' || c == '<' || c == '[' || c == ']' || c == '.' || c == ','
}

/// A text with everything but the eight commands removed.
pub open spec fn strip_spec(s: Seq<char>) -> Seq<char>
    decreases s.len(),
{
    if s.len() == 0 {
        seq![]
    } else {
        (if is_bf_char(s[0]) {
            seq![s[0]]
        } else {
            seq![]
        }) + strip_spec(s.drop_first())
    }
}

/// A text with every non-overlapping occurrence of `pat` replaced by
/// `rep`, left to right, replacements not rescanned.
pub open spec fn replace_all_spec(s: Seq<char>, pat: Seq<char>, rep: Seq<char>) -> Seq<char>
    decreases s.len(),
{
    if pat.len() == 0 || s.len() < pat.len() {
        s
    } else if s.take(pat.len() as int) == pat {
        rep + replace_all_spec(s.skip(pat.len() as int), pat, rep)
    } else {
        seq![s[0]] + replace_all_spec(s.drop_first(), pat, rep)
    }
}

/// One pass of the five cancelling rules, in a fixed order.
pub open spec fn cancel_pass_spec(s: Seq<char>) -> Seq<char> {
    replace_all_spec(
        replace_all_spec(
            replace_all_spec(
                replace_all_spec(
                    replace_all_spec(s, seq!['>', '<'], seq![]),
                    seq!['<', '>'],
                    seq![],
                ),
                seq!['+', '-'],
                seq![],
            ),
            seq!['[', '-', ']', '[', '-', ']'],
            seq!['[', '-', ']'],
        ),
        seq!['-', '+'],
        seq![],
    )
}

/// The cancelling rules run to their fixed point. Every productive
/// pass shortens the text, so the recursion is grounded on the length.
pub open spec fn cancel_fix_spec(s: Seq<char>) -> Seq<char>
    decreases s.len(),
{
    let t = cancel_pass_spec(s);
    if t == s {
        s
    } else if t.len() < s.len() {
        cancel_fix_spec(t)
    } else {
        s
    }
}

/// Replacing with something shorter than the pattern never lengthens
/// the text, and any change shortens it.
proof fn lemma_replace_all_shrinks(s: Seq<char>, pat: Seq<char>, rep: Seq<char>)
    requires
        rep.len() < pat.len(),
    ensures
        replace_all_spec(s, pat, rep).len() <= s.len(),
        replace_all_spec(s, pat, rep) != s ==> replace_all_spec(s, pat, rep).len() < s.len(),
    decreases s.len(),
{
    if pat.len() == 0 || s.len() < pat.len() {
    } else if s.take(pat.len() as int) == pat {
        lemma_replace_all_shrinks(s.skip(pat.len() as int), pat, rep);
    } else {
        lemma_replace_all_shrinks(s.drop_first(), pat, rep);
        let r = replace_all_spec(s, pat, rep);
        let rr = replace_all_spec(s.drop_first(), pat, rep);
        if rr == s.drop_first() {
            assert(r =~= s);
        }
    }
}

/// A single pass never lengthens the text, and a productive pass
/// strictly shortens it.
proof fn lemma_cancel_pass_shrinks(s: Seq<char>)
    ensures
        cancel_pass_spec(s).len() <= s.len(),
        cancel_pass_spec(s) != s ==> cancel_pass_spec(s).len() < s.len(),
{
    let s1 = replace_all_spec(s, seq!['>', '<'], seq![]);
    let s2 = replace_all_spec(s1, seq!['<', '>'], seq![]);
    let s3 = replace_all_spec(s2, seq!['+', '-'], seq![]);
    let s4 = replace_all_spec(s3, seq!['[', '-', ']', '[', '-', ']'], seq!['[', '-', ']']);
    lemma_replace_all_shrinks(s, seq!['>', '<'], seq![]);
    lemma_replace_all_shrinks(s1, seq!['<', '>'], seq![]);
    lemma_replace_all_shrinks(s2, seq!['+', '-'], seq![]);
    lemma_replace_all_shrinks(s3, seq!['[', '-', ']', '[', '-', ']'], seq!['[', '-', ']']);
    lemma_replace_all_shrinks(s4, seq!['-', '+'], seq![]);
}

/// Append one brainfuck command character to the output.
fn push_bf_char(out: &mut String, c: char)
    requires
        is_bf_char(c),
    ensures
        final(out)@ == old(out)@ + seq![c],
{
    proof {
        reveal_strlit("+");
        reveal_strlit("-");
        reveal_strlit(">");
        reveal_strlit("<");
        reveal_strlit("[");
        reveal_strlit("]");
        reveal_strlit(".");
        reveal_strlit(",");
    }
    if c == '+' {
        out.append("+");
    } else if c == '-' {
        out.append("-");
    } else if c == '>' {
        out.append(">");
    } else if c == '<' {
        out.append("<");
    } else if c == '[' {
        out.append("[");
    } else if c == ']' {
        out.append("]");
    } else if c == '.' {
        out.append(".");
    } else {
        out.append(",");
    }
    proof {
        assert(out@ =~= old(out)@ + seq![c]);
    }
}

/// Remove every character that is not one of the eight brainfuck
/// commands (this also drops the `#` debug sentinels).
pub fn remove_non_brainfuck(bf: String) -> (r: String)
    ensures
        r@ == strip_spec(bf@),
{
    let chars = collect_chars(bf.as_str());
    let n = chars.len();
    let mut out = String::new();
    let mut i: usize = 0;
    let ghost full = bf@;
    proof {
        assert(full.skip(0) =~= full);
    }
    while i < n
        invariant
            i <= n,
            full == bf@,
            n == full.len(),
            chars@ == full,
            strip_spec(full) == out@ + strip_spec(full.skip(i as int)),
        decreases n - i,
    {
        let c = chars[i];
        let keep = c == '+' || c == '-' || c == '>' || c == '<' || c == '[' || c == ']'
            || c == '.' || c == ',';
        proof {
            assert(strip_spec(full.skip(i as int)) == (if is_bf_char(full[i as int]) {
                seq![full[i as int]]
            } else {
                seq![]
            }) + strip_spec(full.skip(i + 1))) by {
                reveal_with_fuel(strip_spec, 2);
                assert(full.skip(i as int)[0] == full[i as int]);
                assert(full.skip(i as int).drop_first() =~= full.skip(i + 1));
            }
        }
        if keep {
            let ghost pre = out@;
            push_bf_char(&mut out, c);
            proof {
                assert(pre + (seq![full[i as int]] + strip_spec(full.skip(i + 1))) =~= out@
                    + strip_spec(full.skip(i + 1)));
            }
        } else {
            proof {
                assert(out@ + (Seq::<char>::empty() + strip_spec(full.skip(i + 1))) =~= out@
                    + strip_spec(full.skip(i + 1)));
            }
        }
        i = i + 1;
    }
    proof {
        assert(full.skip(n as int) =~= Seq::<char>::empty());
        assert(strip_spec(Seq::<char>::empty()) =~= Seq::<char>::empty());
        assert(strip_spec(full) =~= out@);
    }
    out
}

/// Replace every occurrence of `pat` (given as characters) by `rep`,
/// scanning left to right without rescanning replacements.
fn replace_all(s: &str, pat: &Vec<char>, rep: &str) -> (r: String)
    requires
        pat@.len() >= 1,
    ensures
        r@ == replace_all_spec(s@, pat@, rep@),
    decreases s@.len(),
{
    let chars = collect_chars(s);
    let n = chars.len();
    let plen = pat.len();
    let mut out = String::new();
    let mut i: usize = 0;
    let mut seg: usize = 0;
    let ghost full = s@;
    proof {
        assert(full.skip(0) =~= full);
        assert(out@ + full.subrange(0, 0) =~= Seq::<char>::empty());
    }
    while i < n
        invariant
            seg <= i <= n,
            full == s@,
            n == full.len(),
            chars@ == full,
            plen == pat@.len(),
            plen >= 1,
            replace_all_spec(full, pat@, rep@) == out@ + full.subrange(seg as int, i as int)
                + replace_all_spec(full.skip(i as int), pat@, rep@),
        decreases n - i,
    {
        let mut matched = false;
        if plen <= n - i {
            matched = true;
            let mut k: usize = 0;
            while k < plen
                invariant
                    k <= plen,
                    plen == pat@.len(),
                    i < n,
                    plen <= n - i,
                    n == full.len(),
                    chars@ == full,
                    matched == (forall|t: int| 0 <= t < k ==> full[i + t] == pat@[t]),
                decreases plen - k,
            {
                if chars[i + k] != pat[k] {
                    matched = false;
                    k = plen;
                } else {
                    if matched {
                        k = k + 1;
                    } else {
                        k = plen;
                    }
                }
            }
        }
        proof {
            if matched {
                assert(full.skip(i as int).take(plen as int) =~= pat@);
            } else if plen <= n - i {
                if full.skip(i as int).take(plen as int) == pat@ {
                    let t = choose|t: int| 0 <= t < plen && full[i + t] != pat@[t];
                    assert(full.skip(i as int).take(plen as int)[t] == pat@[t]);
                }
            }
        }
        if matched {
            let ghost pre = out@;
            let piece = s.substring_char(seg, i);
            out.append(piece);
            out.append(rep);
            proof {
                assert(replace_all_spec(full.skip(i as int), pat@, rep@) == rep@
                    + replace_all_spec(full.skip(i + plen), pat@, rep@)) by {
                    reveal_with_fuel(replace_all_spec, 2);
                    assert(full.skip(i as int).skip(plen as int) =~= full.skip(i + plen));
                }
                assert(pre + full.subrange(seg as int, i as int) + (rep@ + replace_all_spec(
                    full.skip(i + plen),
                    pat@,
                    rep@,
                )) =~= out@ + full.subrange((i + plen) as int, (i + plen) as int)
                    + replace_all_spec(full.skip(i + plen), pat@, rep@));
            }
            i = i + plen;
            seg = i;
        } else {
            proof {
                assert(replace_all_spec(full.skip(i as int), pat@, rep@) == seq![full[i as int]]
                    + replace_all_spec(full.skip(i + 1), pat@, rep@)) by {
                    reveal_with_fuel(replace_all_spec, 2);
                    assert(full.skip(i as int)[0] == full[i as int]);
                    assert(full.skip(i as int).drop_first() =~= full.skip(i + 1));
                    if full.skip(i as int).len() >= plen {
                        assert(full.skip(i as int).take(plen as int) != pat@);
                    }
                }
                assert(out@ + full.subrange(seg as int, i as int) + (seq![full[i as int]]
                    + replace_all_spec(full.skip(i + 1), pat@, rep@)) =~= out@ + full.subrange(
                    seg as int,
                    i + 1,
                ) + replace_all_spec(full.skip(i + 1), pat@, rep@));
            }
            i = i + 1;
        }
    }
    let piece = s.substring_char(seg, n);
    out.append(piece);
    proof {
        assert(full.skip(n as int) =~= Seq::<char>::empty());
        assert(replace_all_spec(Seq::<char>::empty(), pat@, rep@) =~= Seq::<char>::empty());
        assert(replace_all_spec(full, pat@, rep@) =~= out@);
    }
    out
}

/// Delete the cancelling pairs and collapse doubled cell-clears,
/// repeating the five rules until the text stops changing.
pub fn optimize_no_effect(bf: String) -> (r: String)
    ensures
        r@ == cancel_fix_spec(bf@),
{
    let ghost orig = bf@;
    let mut cur = bf;
    loop
        invariant
            cancel_fix_spec(orig) == cancel_fix_spec(cur@),
        ensures
            cur@ == cancel_fix_spec(orig),
        decreases cur@.len(),
    {
        let next = cancel_pass(&cur);
        if next.eq(&cur) {
            proof {
                assert(cancel_fix_spec(cur@) == cur@) by {
                    reveal_with_fuel(cancel_fix_spec, 2);
                }
            }
            break;
        }
        proof {
            lemma_cancel_pass_shrinks(cur@);
            assert(next@.len() < cur@.len());
            assert(cancel_fix_spec(cur@) == cancel_fix_spec(next@)) by {
                reveal_with_fuel(cancel_fix_spec, 2);
            }
        }
        cur = next;
    }
    cur
}

/// One pass of the five rules over the text.
fn cancel_pass(s: &String) -> (r: String)
    ensures
        r@ == cancel_pass_spec(s@),
{
    proof {
        reveal_strlit("><");
        reveal_strlit("<>");
        reveal_strlit("+-");
        reveal_strlit("-+");
        reveal_strlit("[-][-]");
        reveal_strlit("[-]");
        reveal_strlit("");
    }
    let p1 = collect_chars("><");
    let p2 = collect_chars("<>");
    let p3 = collect_chars("+-");
    let p4 = collect_chars("[-][-]");
    let p5 = collect_chars("-+");
    proof {
        assert("><"@ =~= seq!['>', '<']);
        assert("<>"@ =~= seq!['<', '>']);
        assert("+-"@ =~= seq!['+', '-']);
        assert("-+"@ =~= seq!['-', '+']);
        assert("[-][-]"@ =~= seq!['[', '-', ']', '[', '-', ']']);
        assert("[-]"@ =~= seq!['[', '-', ']']);
        assert(""@ =~= Seq::<char>::empty());
    }
    let s1 = replace_all(s.as_str(), &p1, "");
    let s2 = replace_all(s1.as_str(), &p2, "");
    let s3 = replace_all(s2.as_str(), &p3, "");
    let s4 = replace_all(s3.as_str(), &p4, "[-]");
    let s5 = replace_all(s4.as_str(), &p5, "");
    s5
}

/// Shrink generated brainfuck: strip non-command text (including the
/// `#` sentinels), then run the cancelling rules to their fixed point.
pub fn optimize(bf: String) -> (r: String)
    ensures
        r@ == cancel_fix_spec(strip_spec(bf@)),
{
    optimize_no_effect(remove_non_brainfuck(bf))
}

/// A cell already marked as used.
pub open spec fn cell_used(used: Seq<int>, p: int) -> bool {
    used.contains(p)
}

/// The used-cell list with `p` marked.
pub open spec fn mark_cell(used: Seq<int>, p: int) -> Seq<int> {
    if used.contains(p) {
        used
    } else {
        used.push(p)
    }
}

/// The used-cell list with every non-positive cell forgotten, as at an
/// instruction separator.
pub open spec fn keep_positive(used: Seq<int>) -> Seq<int>
    decreases used.len(),
{
    if used.len() == 0 {
        seq![]
    } else {
        (if used[0] > 0 {
            seq![used[0]]
        } else {
            seq![]
        }) + keep_positive(used.drop_first())
    }
}

/// The used-cell list with one cell forgotten, as after a kept clear.
pub open spec fn forget_cell(used: Seq<int>, p: int) -> Seq<int>
    decreases used.len(),
{
    if used.len() == 0 {
        seq![]
    } else {
        (if used[0] == p {
            seq![]
        } else {
            seq![used[0]]
        }) + forget_cell(used.drop_first(), p)
    }
}

/// One pass dropping `[-]` clears of cells that were never touched,
/// outside all brackets: the scan tracks the head, the bracket depth
/// and which cells were used, and decides after every segment —
/// including the final one, which has no clear of its own — whether a
/// clear stands there: it does exactly when the current cell was
/// touched or a bracket is open. So a clear of an untouched cell at
/// depth zero is dropped, and one more clear appears at the end of
/// the text whenever the final cell was touched, which is inert
/// because nothing runs after it.
pub open spec fn drop_zeros_spec(s: Seq<char>, p: int, br: int, used: Seq<int>) -> Seq<char>
    decreases s.len(),
{
    if s.len() >= 3 && s[0] == '[' && s[1] == '-' && s[2] == ']' {
        if !cell_used(used, p) && br == 0 {
            drop_zeros_spec(s.skip(3), p, br, used)
        } else {
            seq!['[', '-', ']'] + drop_zeros_spec(s.skip(3), p, br, forget_cell(used, p))
        }
    } else if s.len() == 0 {
        if !cell_used(used, p) && br == 0 {
            seq![]
        } else {
            seq!['[', '-', ']']
        }
    } else {
        let c = s[0];
        let p2 = if c == '<' {
            p - 1
        } else if c == '>' {
            p + 1
        } else {
            p
        };
        let br2 = if c == '[' {
            br + 1
        } else if c == ']' {
            br - 1
        } else {
            br
        };
        let used2 = if c == '[' || c == ']' || c == ',' || c == '.' || c == '+' || c == '-' {
            mark_cell(used, p)
        } else if c == '#' {
            keep_positive(used)
        } else {
            used
        };
        seq![c] + drop_zeros_spec(s.skip(1), p2, br2, used2)
    }
}

/// Remove `[-]` clears that cannot do anything: clears of cells that
/// nothing has touched, outside all brackets. Needs the `#`
/// instruction separators still in place; run it before
/// `remove_non_brainfuck`.
pub fn remove_redundant_zeros(bf: String) -> (r: String)
    ensures
        r@ == drop_zeros_spec(bf@, 0, 0, seq![]),
{
    proof {
        lit_rz();
    }
    let chars = collect_chars(bf.as_str());
    let ghost full = bf@;
    let n = chars.len();
    let mut out = String::new();
    let mut p: i128 = 0;
    let mut br: i128 = 0;
    let mut used: Vec<i128> = Vec::new();
    let mut i: usize = 0;
    proof {
        assert(full.skip(0) =~= full);
        assert(used@.map_values(|x: i128| x as int) =~= Seq::<int>::empty());
    }
    while i < n
        invariant
            i <= n,
            full == bf@,
            n == full.len(),
            chars@ == full,
            -(i as int) <= p <= i as int,
            -(i as int) <= br <= i as int,
            drop_zeros_spec(full, 0, 0, seq![]) == out@ + drop_zeros_spec(
                full.skip(i as int),
                p as int,
                br as int,
                used@.map_values(|x: i128| x as int),
            ),
        decreases n - i,
    {
        proof {
            lit_rz();
        }
        let ghost gused = used@.map_values(|x: i128| x as int);
        let ghost rest = full.skip(i as int);
        proof {
            assert(rest[0] == full[i as int]);
            if i + 1 < n {
                assert(rest[1] == full[i + 1]);
            }
            if i + 2 < n {
                assert(rest[2] == full[i + 2]);
            }
        }
        let is_sep = n - i >= 3 && chars[i] == '[' && chars[i + 1] == '-' && chars[i + 2] == ']';
        if is_sep {
            let marked = contains_cell(&used, p);
            if !marked && br == 0 {
                proof {
                    assert(full.skip(i as int).skip(3) =~= full.skip(i + 3));
                    assert(drop_zeros_spec(rest, p as int, br as int, gused) == drop_zeros_spec(
                        full.skip(i + 3),
                        p as int,
                        br as int,
                        gused,
                    ));
                }
            } else {
                let ghost pre = out@;
                out.append("[-]");
                retain_not(&mut used, p);
                proof {
                    assert(full.skip(i as int).skip(3) =~= full.skip(i + 3));
                    let tail = drop_zeros_spec(
                        full.skip(i + 3),
                        p as int,
                        br as int,
                        forget_cell(gused, p as int),
                    );
                    assert(drop_zeros_spec(rest, p as int, br as int, gused) == seq![
                        '[',
                        '-',
                        ']',
                    ] + tail);
                    assert(pre + (seq!['[', '-', ']'] + tail) =~= out@ + tail);
                }
            }
            i = i + 3;
        } else {
            let ghost p0 = p as int;
            let ghost br0 = br as int;
            let c = chars[i];
            if c == '<' {
                p = p - 1;
            } else if c == '>' {
                p = p + 1;
            }
            if c == '[' {
                br = br + 1;
            } else if c == ']' {
                br = br - 1;
            }
            if c == '[' || c == ']' || c == ',' || c == '.' || c == '+' || c == '-' {
                let here = p;
                if !contains_cell(&used, here) {
                    used.push(here);
                    proof {
                        assert(used@.map_values(|x: i128| x as int) =~= gused.push(here as int));
                    }
                }
            } else if c == '#' {
                retain_positive(&mut used);
            }
            let ghost pre = out@;
            push_bf_or_other(&mut out, bf.as_str(), i, c);
            proof {
                assert(full.skip(i as int).skip(1) =~= full.skip(i + 1));
                let tail = drop_zeros_spec(
                    full.skip(i + 1),
                    p as int,
                    br as int,
                    used@.map_values(|x: i128| x as int),
                );
                assert(drop_zeros_spec(rest, p0, br0, gused) == seq![c] + tail);
                assert(pre + (seq![c] + tail) =~= out@ + tail);
            }
            i = i + 1;
        }
    }
    proof {
        assert(full.skip(n as int) =~= Seq::<char>::empty());
    }
    let marked = contains_cell(&used, p);
    if marked || br != 0 {
        out.append("[-]");
    }
    out
}

/// Whether the cell list holds `p`.
fn contains_cell(used: &Vec<i128>, p: i128) -> (r: bool)
    ensures
        r == cell_used(used@.map_values(|x: i128| x as int), p as int),
{
    let n = used.len();
    let mut j: usize = 0;
    while j < n
        invariant
            j <= n,
            n == used@.len(),
            forall|k: int| 0 <= k < j ==> used@[k] != p,
        decreases n - j,
    {
        if used[j] == p {
            proof {
                assert(used@.map_values(|x: i128| x as int)[j as int] == p as int);
            }
            return true;
        }
        j = j + 1;
    }
    proof {
        let m = used@.map_values(|x: i128| x as int);
        assert forall|k: int| 0 <= k < m.len() implies m[k] != p as int by {
            assert(used@[k] != p);
        }
    }
    false
}

/// Drop every entry equal to `p`.
fn retain_not(used: &mut Vec<i128>, p: i128)
    ensures
        final(used)@.map_values(|x: i128| x as int) == forget_cell(
            old(used)@.map_values(|x: i128| x as int),
            p as int,
        ),
{
    let ghost whole = used@.map_values(|x: i128| x as int);
    let n = used.len();
    let mut out: Vec<i128> = Vec::new();
    let mut j: usize = 0;
    proof {
        assert(whole.skip(0) =~= whole);
        assert(out@.map_values(|x: i128| x as int) =~= Seq::<int>::empty());
    }
    while j < n
        invariant
            j <= n,
            n == used@.len(),
            whole == used@.map_values(|x: i128| x as int),
            forget_cell(whole, p as int) == out@.map_values(|x: i128| x as int) + forget_cell(
                whole.skip(j as int),
                p as int,
            ),
        decreases n - j,
    {
        proof {
            assert(whole.skip(j as int)[0] == whole[j as int]);
            assert(whole.skip(j as int).drop_first() =~= whole.skip(j + 1));
        }
        let ghost pre = out@.map_values(|x: i128| x as int);
        let v = used[j];
        if v != p {
            out.push(v);
            proof {
                assert(out@.map_values(|x: i128| x as int) =~= pre.push(whole[j as int]));
                assert(pre + (seq![whole[j as int]] + forget_cell(whole.skip(j + 1), p as int))
                    =~= pre.push(whole[j as int]) + forget_cell(whole.skip(j + 1), p as int));
            }
        } else {
            proof {
                assert(pre + (Seq::<int>::empty() + forget_cell(whole.skip(j + 1), p as int))
                    =~= pre + forget_cell(whole.skip(j + 1), p as int));
            }
        }
        j = j + 1;
    }
    proof {
        assert(whole.skip(n as int) =~= Seq::<int>::empty());
        assert(forget_cell(whole, p as int) =~= out@.map_values(|x: i128| x as int));
    }
    *used = out;
}

/// Drop every non-positive entry.
fn retain_positive(used: &mut Vec<i128>)
    ensures
        final(used)@.map_values(|x: i128| x as int) == keep_positive(
            old(used)@.map_values(|x: i128| x as int),
        ),
{
    let ghost whole = used@.map_values(|x: i128| x as int);
    let n = used.len();
    let mut out: Vec<i128> = Vec::new();
    let mut j: usize = 0;
    proof {
        assert(whole.skip(0) =~= whole);
        assert(out@.map_values(|x: i128| x as int) =~= Seq::<int>::empty());
    }
    while j < n
        invariant
            j <= n,
            n == used@.len(),
            whole == used@.map_values(|x: i128| x as int),
            keep_positive(whole) == out@.map_values(|x: i128| x as int) + keep_positive(
                whole.skip(j as int),
            ),
        decreases n - j,
    {
        proof {
            assert(whole.skip(j as int)[0] == whole[j as int]);
            assert(whole.skip(j as int).drop_first() =~= whole.skip(j + 1));
        }
        let ghost pre = out@.map_values(|x: i128| x as int);
        let v = used[j];
        if v > 0 {
            out.push(v);
            proof {
                assert(out@.map_values(|x: i128| x as int) =~= pre.push(whole[j as int]));
                assert(pre + (seq![whole[j as int]] + keep_positive(whole.skip(j + 1)))
                    =~= pre.push(whole[j as int]) + keep_positive(whole.skip(j + 1)));
            }
        } else {
            proof {
                assert(pre + (Seq::<int>::empty() + keep_positive(whole.skip(j + 1)))
                    =~= pre + keep_positive(whole.skip(j + 1)));
            }
        }
        j = j + 1;
    }
    proof {
        assert(whole.skip(n as int) =~= Seq::<int>::empty());
        assert(keep_positive(whole) =~= out@.map_values(|x: i128| x as int));
    }
    *used = out;
}

/// Append one character of the scanned text: a command by literal, any
/// other character as a one-character slice of the source.
fn push_bf_or_other(out: &mut String, src: &str, i: usize, c: char)
    requires
        i < usize::MAX,
        i < src@.len(),
        src@[i as int] == c,
    ensures
        final(out)@ == old(out)@ + seq![c],
{
    if c == '+' || c == '-' || c == '>' || c == '<' || c == '[' || c == ']' || c == '.'
        || c == ',' {
        push_bf_char(out, c);
    } else {
        let piece = src.substring_char(i, i + 1);
        out.append(piece);
        proof {
            assert(out@ =~= old(out)@ + seq![c]);
        }
    }
}

/// Contents of the clear literal, for the redundant-zero pass.
proof fn lit_rz()
    ensures
        "[-]"@ == seq!['[', '-', ']'],
{
    reveal_strlit("[-]");
    assert("[-]"@ =~= seq!['[', '-', ']']);
}

} // verus!
