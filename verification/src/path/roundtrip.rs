//! Reading gives back what was written.
use crate::path::syntax;
use crate::path::syntax::{ErrorView, StepView};
use crate::text;
use vstd::prelude::*;
use vstd::utf8::*;

verus! {

/// `part` stands in `whole` from position `i` on.
pub open spec fn stands_at(whole: Seq<char>, i: int, part: Seq<char>) -> bool {
    &&& 0 <= i
    &&& i + part.len() <= whole.len()
    &&& forall|k: int| 0 <= k < part.len() ==> #[trigger] part[k] == whole[i + k]
}

/// The text ends at `i`, or goes on with a further step.
pub open spec fn step_boundary(t: Seq<char>, i: int) -> bool {
    i == t.len() || (0 <= i < t.len() && (t[i] == '.' || t[i] == '['))
}

proof fn lemma_stands_split(t: Seq<char>, i: int, a: Seq<char>, b: Seq<char>)
    requires
        stands_at(t, i, a + b),
    ensures
        stands_at(t, i, a),
        stands_at(t, i + a.len(), b),
{
    assert forall|k: int| 0 <= k < a.len() implies #[trigger] a[k] == t[i + k] by {
        assert((a + b)[k] == a[k]);
    }
    assert forall|k: int| 0 <= k < b.len() implies #[trigger] b[k] == t[i + a.len() + k] by {
        assert((a + b)[a.len() + k] == b[k]);
    }
}

/// One character between quotes is read back.
proof fn lemma_read_escaped(t: Seq<char>, i: int, c: char, acc: Seq<char>)
    requires
        stands_at(t, i, syntax::escaped(c)),
    ensures
        syntax::read_quoted(t, i, acc) == syntax::read_quoted(
            t,
            i + syntax::escaped(c).len(),
            acc.push(c),
        ),
{
    let e = syntax::escaped(c);
    assert(e[0] == t[i]);
    if c == '"' || c == '\\' || c == '\n' || c == '\t' || c == '\r' || c == '\0' {
        assert(e[1] == t[i + 1]);
    } else if (c as u32) < 0x20 {
        let n = text::numeral(c as int, 16);
        text::lemma_numeral(c as int, 16);
        assert(e[1] == t[i + 1]);
        assert(e[2] == t[i + 2]);
        assert forall|k: int| i + 3 <= k < i + 3 + n.len() implies syntax::hex_class()(
            #[trigger] t[k],
        ) by {
            assert(e[k - i] == n[k - i - 3]);
            assert(e[k - i] == t[k]);
        }
        let end = i + 3 + n.len();
        assert(e[e.len() - 1] == '}');
        assert(t[end] == '}') by {
            assert(e[3 + n.len() as int] == t[i + (3 + n.len() as int)]);
        }
        text::lemma_run_end_is(t, i + 3, end, syntax::hex_class());
        assert(t.subrange(i + 3, end) =~= n) by {
            assert forall|k: int| 0 <= k < n.len() implies t.subrange(i + 3, end)[k] == n[k] by {
                assert(e[3 + k] == n[k]);
                assert(e[3 + k] == t[i + (3 + k)]);
            }
        }
        assert(syntax::read_escape(t, i + 1) == Ok::<(char, int), ErrorView>((c, end + 1)));
    }
}

/// The text of a prefix of the characters is a prefix of the text.
proof fn lemma_escaped_prefix(s: Seq<char>, k: int)
    requires
        0 <= k < s.len(),
    ensures
        ({
            let before = syntax::escaped_all(s.take(k));
            let here = before + syntax::escaped(s[k]);
            &&& syntax::escaped_all(s.take(k + 1)) == here
            &&& here.len() <= syntax::escaped_all(s).len()
            &&& syntax::escaped_all(s).take(here.len() as int) == here
        }),
    decreases s.len(),
{
    assert(s.take(k + 1).drop_last() =~= s.take(k));
    let here = syntax::escaped_all(s.take(k + 1));
    if k + 1 == s.len() {
        assert(s.take(k + 1) =~= s);
        assert(syntax::escaped_all(s).take(here.len() as int) =~= here);
    } else {
        lemma_escaped_prefix(s.drop_last(), k);
        assert(s.drop_last().take(k + 1) =~= s.take(k + 1));
        assert(s.drop_last().take(k) =~= s.take(k));
        assert(syntax::escaped_all(s).take(here.len() as int) =~= syntax::escaped_all(
            s.drop_last(),
        ).take(here.len() as int));
    }
}

/// The characters from the `k`-th on are read back, up to the closing quote.
proof fn lemma_read_quoted_from(t: Seq<char>, i: int, s: Seq<char>, k: int)
    requires
        0 <= k <= s.len(),
        stands_at(t, i, syntax::escaped_all(s) + seq!['"']),
    ensures
        syntax::read_quoted(t, i + syntax::escaped_all(s.take(k)).len(), s.take(k)) == Ok::<
            (Seq<char>, int),
            ErrorView,
        >((s, i + syntax::escaped_all(s).len() + 1)),
    decreases s.len() - k,
{
    let all = syntax::escaped_all(s);
    lemma_stands_split(t, i, all, seq!['"']);
    if k == s.len() {
        assert(s.take(k) =~= s);
        let q = seq!['"'];
        assert(q[0] == t[i + all.len() + 0]);
    } else {
        lemma_escaped_prefix(s, k);
        let before = syntax::escaped_all(s.take(k));
        let e = syntax::escaped(s[k]);
        assert(stands_at(t, i + before.len(), e)) by {
            assert forall|m: int| 0 <= m < e.len() implies #[trigger] e[m] == t[i + before.len()
                + m] by {
                assert((before + e)[before.len() + m] == e[m]);
                assert(all.take((before + e).len() as int)[before.len() + m] == all[before.len()
                    + m]);
                assert(all[before.len() + m] == t[i + (before.len() + m)]);
            }
        }
        lemma_read_escaped(t, i + before.len(), s[k], s.take(k));
        assert(s.take(k).push(s[k]) =~= s.take(k + 1));
        lemma_read_quoted_from(t, i, s, k + 1);
    }
}

/// A field name is read back.
proof fn lemma_read_name(t: Seq<char>, i: int, name: Seq<char>)
    requires
        stands_at(t, i, syntax::show_name(name)),
        step_boundary(t, i + syntax::show_name(name).len()),
    ensures
        i < t.len(),
        t[i] == '"' || text::spec_is_ident_start(t[i]),
        syntax::read_field(t, i) == Ok::<(StepView, int), ErrorView>(
            (StepView::Field(name), i + syntax::show_name(name).len()),
        ),
{
    let w = syntax::show_name(name);
    if syntax::bare_ident(name) {
        assert(w[0] == t[i + 0]);
        let end = i + w.len();
        assert forall|k: int| i <= k < end implies syntax::ident_class()(#[trigger] t[k]) by {
            assert(w[k - i] == t[i + (k - i)]);
        }
        text::lemma_run_end_is(t, i, end, syntax::ident_class());
        assert(t.subrange(i, end) =~= name) by {
            assert forall|k: int| 0 <= k < name.len() implies t.subrange(i, end)[k] == name[k] by {
                assert(w[k] == t[i + k]);
            }
        }
    } else {
        let body = syntax::escaped_all(name) + seq!['"'];
        assert(w =~= seq!['"'] + body);
        lemma_stands_split(t, i, seq!['"'], body);
        assert(seq!['"'][0] == t[i + 0]);
        assert(name.take(0) =~= Seq::<char>::empty());
        assert(syntax::escaped_all(name.take(0)) =~= Seq::<char>::empty());
        lemma_read_quoted_from(t, i + 1, name, 0);
    }
}

/// One step is read back.
proof fn lemma_read_shown_step(t: Seq<char>, i: int, step: StepView, first: bool)
    requires
        stands_at(t, i, syntax::show_step(step, first)),
        step_boundary(t, i + syntax::show_step(step, first).len()),
    ensures
        i < t.len(),
        syntax::read_step(t, i, first) == Ok::<(StepView, int), ErrorView>(
            (step, i + syntax::show_step(step, first).len()),
        ),
{
    let w = syntax::show_step(step, first);
    let sep = syntax::separator(first);
    match step {
        StepView::Field(name) => {
            lemma_stands_split(t, i, sep, syntax::show_name(name));
            lemma_read_name(t, i + sep.len(), name);
            if !first {
                assert(sep[0] == t[i + 0]);
            }
        },
        StepView::AnyField => {
            assert(w[0] == t[i + 0]);
            if !first {
                assert(w[1] == t[i + 1]);
            }
        },
        StepView::Index(n) => {
            let digits = text::numeral(n as int, 10);
            text::lemma_numeral(n as int, 10);
            assert(w =~= seq!['['] + (digits + seq![']']));
            lemma_stands_split(t, i, seq!['['], digits + seq![']']);
            lemma_stands_split(t, i + 1, digits, seq![']']);
            assert(seq!['['][0] == t[i + 0]);
            let end = i + 1 + digits.len();
            assert(seq![']'][0] == t[end + 0]);
            assert forall|k: int| i + 1 <= k < end implies syntax::digit_class()(
                #[trigger] t[k],
            ) by {
                assert(digits[k - i - 1] == t[i + 1 + (k - i - 1)]);
            }
            text::lemma_run_end_is(t, i + 1, end, syntax::digit_class());
            assert(t.subrange(i + 1, end) =~= digits) by {
                assert forall|k: int| 0 <= k < digits.len() implies t.subrange(i + 1, end)[k]
                    == digits[k] by {
                    assert(digits[k] == t[i + 1 + k]);
                }
            }
            assert(syntax::digit_class()(t[i + 1]));
        },
        StepView::AnyIndex => {
            assert(w[0] == t[i + 0]);
            assert(w[1] == t[i + 1]);
            assert(w[2] == t[i + 2]);
        },
    }
}

/// The text of the first `n` steps begins the text of all steps, and what
/// follows it is the next step or the end.
proof fn lemma_show_steps_prefix(steps: Seq<StepView>, n: int, m: int)
    requires
        0 <= n <= m <= steps.len(),
    ensures
        ({
            let part = syntax::show_steps(steps, n);
            let whole = syntax::show_steps(steps, m);
            &&& part.len() <= whole.len()
            &&& whole.take(part.len() as int) == part
            &&& 0 < n < m ==> part.len() < whole.len() && (whole[part.len() as int] == '.'
                || whole[part.len() as int] == '[')
        }),
    decreases m,
{
    let part = syntax::show_steps(steps, n);
    let whole = syntax::show_steps(steps, m);
    if n == m {
        assert(whole.take(part.len() as int) =~= part);
    } else {
        let shorter = syntax::show_steps(steps, m - 1);
        lemma_show_steps_prefix(steps, n, m - 1);
        assert(whole.take(part.len() as int) =~= shorter.take(part.len() as int));
        if n == m - 1 && n > 0 {
            let w = syntax::show_step(steps[m - 1], false);
            assert(w.len() > 0 && (w[0] == '.' || w[0] == '['));
            assert(whole[part.len() as int] == w[0]);
        }
    }
}

/// The steps from the `n`-th on are read back.
proof fn lemma_read_shown_steps(steps: Seq<StepView>, n: int)
    requires
        0 <= n <= steps.len(),
    ensures
        syntax::read_steps(
            syntax::show(steps),
            1 + syntax::show_steps(steps, n).len() as int,
            steps.take(n),
        ) == Ok::<Seq<StepView>, ErrorView>(steps),
    decreases steps.len() - n,
{
    let all = syntax::show_steps(steps, steps.len() as int);
    let t = syntax::show(steps);
    let i = 1 + syntax::show_steps(steps, n).len() as int;
    if n == steps.len() {
        assert(steps.take(n) =~= steps);
    } else {
        let w = syntax::show_step(steps[n], n == 0);
        let next = syntax::show_steps(steps, n + 1);
        lemma_show_steps_prefix(steps, n + 1, steps.len() as int);
        assert(stands_at(t, i, w)) by {
            assert forall|k: int| 0 <= k < w.len() implies #[trigger] w[k] == t[i + k] by {
                assert(next[i - 1 + k] == w[k]);
                assert(all.take(next.len() as int)[i - 1 + k] == all[i - 1 + k]);
            }
        }
        assert(step_boundary(t, i + w.len()));
        lemma_read_shown_step(t, i, steps[n], n == 0);
        assert(steps.take(n).push(steps[n]) =~= steps.take(n + 1));
        lemma_read_shown_steps(steps, n + 1);
    }
}

/// Reading the text of a pattern gives the pattern back. A path is a pattern
/// without wildcards, so the same holds of paths.
pub proof fn law_read_shown(steps: Seq<StepView>)
    ensures
        syntax::read(syntax::show(steps)) == Ok::<Seq<StepView>, ErrorView>(steps),
{
    assert(steps.take(0) =~= Seq::<StepView>::empty());
    assert(syntax::show_steps(steps, 0) =~= Seq::<char>::empty());
    lemma_read_shown_steps(steps, 0);
}

/// Two patterns that are written alike are the same pattern.
pub proof fn law_show_injective(a: Seq<StepView>, b: Seq<StepView>)
    requires
        syntax::show(a) == syntax::show(b),
    ensures
        a == b,
{
    law_read_shown(a);
    law_read_shown(b);
}

/// A path that was made a pattern is a path again.
pub proof fn law_path_pattern_path(path: crate::path::Path)
    ensures
        syntax::without_wildcards(path@) == Ok::<Seq<StepView>, ErrorView>(path@),
{
    assert forall|k: int| 0 <= k < path@.len() implies !syntax::is_wildcard(
        #[trigger] path@[k],
    ) by {
        assert(path@[k] == path.0@[k]@);
    }
}

} // verus!
