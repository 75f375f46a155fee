//! Finding tasks of a new plan that look like tasks already on the board.
//!
//! Texts are compared by their sets of tokens; the similarity score made of the counts
//! below is their Jaccard index, shared tokens over all tokens.

use vstd::prelude::*;

use crate::planner_types::OcPlanTask;
use crate::text::{
    alphabetic, char_is_alphabetic, chars_of, contains_text, lowercased, push_str, str_eq,
    string_of, to_lowercase, utf8_len_exceeds, views,
};

verus! {

/// A task already on the board.
#[derive(Debug, Clone)]
pub struct ExistingTask {
    pub title: String,
    pub status: String,
}

/// Compares the tasks of a new plan with the tasks on the board.
pub struct DuplicationChecker;

/// How the tokens of a new task and of a task on the board overlap.
#[derive(Debug, Clone, Copy, PartialEq, Eq, Structural)]
pub struct TaskOverlap {
    /// Position of the new task.
    pub new_index: usize,
    /// Position of the task on the board.
    pub existing_index: usize,
    /// Tokens that both have.
    pub shared: usize,
    /// Tokens that only the new task has.
    pub new_only: usize,
    /// Tokens that only the task on the board has.
    pub existing_only: usize,
}

/// Frequent Turkish and English words that carry no meaning for the comparison.
pub open spec fn stop_words() -> Seq<Seq<char>> {
    seq![
        "ve"@,
        "bir"@,
        "bu"@,
        "ile"@,
        "için"@,
        "de"@,
        "da"@,
        "mi"@,
        "mu"@,
        "mü"@,
        "mı"@,
        "ne"@,
        "ki"@,
        "ya"@,
        "ama"@,
        "veya"@,
        "ancak"@,
        "olan"@,
        "olarak"@,
        "gibi"@,
        "kadar"@,
        "sonra"@,
        "önce"@,
        "her"@,
        "tüm"@,
        "bütün"@,
        "bazı"@,
        "çok"@,
        "the"@,
        "and"@,
        "for"@,
        "add"@,
        "with"@,
        "this"@,
        "that"@,
        "from"@,
        "into"@,
        "are"@,
        "have"@,
        "has"@,
        "been"@,
        "will"@,
        "should"@,
        "can"@,
        "may"@,
        "not"@,
        "but"@,
        "its"@,
        "via"@,
        "per"@,
    ]
}

/// Reading `s` from the left: the words ended so far and the word being read, where any
/// character that is not alphabetic ends a word.
pub open spec fn word_scan(s: Seq<char>) -> (Seq<Seq<char>>, Seq<char>)
    decreases s.len(),
{
    if s.len() == 0 {
        (Seq::empty(), Seq::empty())
    } else {
        let (done, cur) = word_scan(s.drop_last());
        if alphabetic(s.last()) {
            (done, cur.push(s.last()))
        } else {
            (done.push(cur), Seq::empty())
        }
    }
}

/// The pieces of `s` between characters that are not alphabetic, empty ones included.
pub open spec fn words(s: Seq<char>) -> Seq<Seq<char>> {
    let (done, cur) = word_scan(s);
    done.push(cur)
}

/// A word counts as a token when it is longer than two UTF-8 bytes and not a stop word.
pub open spec fn is_kept_word(w: Seq<char>) -> bool {
    vstd::utf8::encode_utf8(w).len() > 2 && !stop_words().contains(w)
}

/// The tokens of a text: the kept words of its lowercase form.
pub open spec fn token_set(text: Seq<char>) -> Set<Seq<char>> {
    Set::new(|w: Seq<char>| words(lowercased(text)).contains(w) && is_kept_word(w))
}

/// The text of a new task that is compared: its title and description.
pub open spec fn task_text(t: OcPlanTask) -> Seq<char> {
    t.title@ + " "@ + t.description@
}

/// The overlap of the token sets `a` and `b`, as `(shared, only in a, only in b)`.
pub open spec fn overlap_counts(a: Set<Seq<char>>, b: Set<Seq<char>>) -> (nat, nat, nat) {
    (a.intersect(b).len(), a.difference(b).len(), b.difference(a).len())
}

/// The overlaps of new task `i` with the first `j` tasks on the board; a pair is left out
/// when either side has no token.
pub open spec fn row_overlaps(
    i: int,
    new_tokens: Set<Seq<char>>,
    existing_texts: Seq<Seq<char>>,
    j: nat,
) -> Seq<(int, int, nat, nat, nat)>
    decreases j,
{
    if j == 0 {
        Seq::empty()
    } else {
        let prev = row_overlaps(i, new_tokens, existing_texts, (j - 1) as nat);
        let ex = token_set(existing_texts[j - 1]);
        if new_tokens.len() > 0 && ex.len() > 0 {
            let (s, a, b) = overlap_counts(new_tokens, ex);
            prev.push((i, j - 1, s, a, b))
        } else {
            prev
        }
    }
}

/// The overlaps of the first `i` new tasks with all tasks on the board, new task by new
/// task and, for each, in board order.
pub open spec fn all_overlaps(new_texts: Seq<Seq<char>>, existing_texts: Seq<Seq<char>>, i: nat) -> Seq<
    (int, int, nat, nat, nat),
>
    decreases i,
{
    if i == 0 {
        Seq::empty()
    } else {
        all_overlaps(new_texts, existing_texts, (i - 1) as nat) + row_overlaps(
            i - 1,
            token_set(new_texts[i - 1]),
            existing_texts,
            existing_texts.len(),
        )
    }
}

/// An overlap as plain numbers.
pub open spec fn overlap_view(o: TaskOverlap) -> (int, int, nat, nat, nat) {
    (
        o.new_index as int,
        o.existing_index as int,
        o.shared as nat,
        o.new_only as nat,
        o.existing_only as nat,
    )
}

/// Whether `w` is one of the stop words.
pub fn is_stop_word(w: &str) -> (r: bool)
    ensures
        r == stop_words().contains(w@),
{
    let table = vec![
            "ve",
            "bir",
            "bu",
            "ile",
            "için",
            "de",
            "da",
            "mi",
            "mu",
            "mü",
            "mı",
            "ne",
            "ki",
            "ya",
            "ama",
            "veya",
            "ancak",
            "olan",
            "olarak",
            "gibi",
            "kadar",
            "sonra",
            "önce",
            "her",
            "tüm",
            "bütün",
            "bazı",
            "çok",
            "the",
            "and",
            "for",
            "add",
            "with",
            "this",
            "that",
            "from",
            "into",
            "are",
            "have",
            "has",
            "been",
            "will",
            "should",
            "can",
            "may",
            "not",
            "but",
            "its",
            "via",
            "per",
        ];
    assert(table@.map_values(|t: &str| t@) =~= stop_words());
    for i in 0..table.len()
        invariant
            table@.map_values(|t: &str| t@) == stop_words(),
            forall|k: int| 0 <= k < i ==> stop_words()[k] != w@,
    {
        assert(stop_words()[i as int] == table@[i as int]@);
        if str_eq(w, table[i]) {
            assert(stop_words()[i as int] == w@);
            return true;
        }
    }
    false
}

proof fn lemma_push_keeps_distinct(s: Seq<Seq<char>>, x: Seq<char>)
    requires
        s.no_duplicates(),
        !s.contains(x),
    ensures
        s.push(x).no_duplicates(),
{
    assert forall|i: int, j: int| 0 <= i < s.push(x).len() && 0 <= j < s.push(x).len() && i != j
        implies s.push(x)[i] != s.push(x)[j] by {
        if i == s.len() {
            assert(s[j] == s.push(x)[j]);
        } else if j == s.len() {
            assert(s[i] == s.push(x)[i]);
        }
    }
}

/// Ending a word: the tokens after it are the kept words among those ended so far.
proof fn lemma_word_ended(t0: Seq<Seq<char>>, t1: Seq<Seq<char>>, done: Seq<Seq<char>>, w: Seq<char>)
    requires
        forall|x: Seq<char>|
            #![trigger is_kept_word(x)]
            is_kept_word(x) ==> (t0.contains(x) <==> done.contains(x)),
        forall|x: Seq<char>|
            #![trigger is_kept_word(x)]
            !is_kept_word(x) ==> !t0.contains(x),
        forall|x: Seq<char>|
            #![trigger is_kept_word(x)]
            is_kept_word(x) ==> (t1.contains(x) <==> (t0.contains(x) || x == w)),
        forall|x: Seq<char>|
            #![trigger is_kept_word(x)]
            !is_kept_word(x) ==> (t1.contains(x) <==> t0.contains(x)),
    ensures
        forall|x: Seq<char>|
            #![trigger is_kept_word(x)]
            is_kept_word(x) ==> (t1.contains(x) <==> done.push(w).contains(x)),
        forall|x: Seq<char>|
            #![trigger is_kept_word(x)]
            !is_kept_word(x) ==> !t1.contains(x),
{
    assert forall|x: Seq<char>| #[trigger] is_kept_word(x) implies (t1.contains(x) <==> done.push(
        w,
    ).contains(x)) by {
        vstd::seq_lib::lemma_seq_contains_after_push(done, w, x);
    }
}

/// Adds the word `w` to the tokens when it counts as one and is not there yet.
fn add_word(tokens: &mut Vec<String>, w: &Vec<char>)
    requires
        views(old(tokens)@).no_duplicates(),
    ensures
        views(final(tokens)@).no_duplicates(),
        forall|x: Seq<char>|
            #![trigger is_kept_word(x)]
            is_kept_word(x) ==> (views(final(tokens)@).contains(x) <==> (views(
                old(tokens)@,
            ).contains(x) || x == w@)),
        forall|x: Seq<char>|
            #![trigger is_kept_word(x)]
            !is_kept_word(x) ==> (views(final(tokens)@).contains(x) <==> views(
                old(tokens)@,
            ).contains(x)),
{
    let s = string_of(w.as_slice());
    if utf8_len_exceeds(s.as_str(), 2) && !is_stop_word(s.as_str()) && !contains_text(
        tokens,
        s.as_str(),
    ) {
        let ghost before = views(tokens@);
        tokens.push(s);
        proof {
            assert(views(tokens@) =~= before.push(w@));
            lemma_push_keeps_distinct(before, w@);
            assert forall|x: Seq<char>| views(tokens@).contains(x) <==> (before.contains(x) || x
                == w@) by {
                vstd::seq_lib::lemma_seq_contains_after_push(before, w@, x);
            }
        }
    }
}

/// Counts how two token lists without repeats overlap.
fn count_overlap(a: &Vec<String>, b: &Vec<String>) -> (r: (usize, usize, usize))
    requires
        views(a@).no_duplicates(),
        views(b@).no_duplicates(),
    ensures
        (r.0 as nat, r.1 as nat, r.2 as nat) == overlap_counts(
            views(a@).to_set(),
            views(b@).to_set(),
        ),
{
    let ghost sa = views(a@).to_set();
    let ghost sb = views(b@).to_set();
    let mut shared: usize = 0;
    let mut a_only: usize = 0;
    let ghost mut common: Seq<Seq<char>> = Seq::empty();
    let ghost mut only_a: Seq<Seq<char>> = Seq::empty();
    for i in 0..a.len()
        invariant
            sa == views(a@).to_set(),
            sb == views(b@).to_set(),
            views(a@).no_duplicates(),
            common.no_duplicates(),
            only_a.no_duplicates(),
            common.len() == shared,
            only_a.len() == a_only,
            shared + a_only == i,
            forall|x: Seq<char>|
                common.contains(x) <==> (views(a@).take(i as int).contains(x) && sb.contains(x)),
            forall|x: Seq<char>|
                only_a.contains(x) <==> (views(a@).take(i as int).contains(x) && !sb.contains(x)),
    {
        let x = a[i].as_str();
        let ghost xv = views(a@)[i as int];
        proof {
            assert(x@ == xv);
            assert(views(a@).take(i + 1) =~= views(a@).take(i as int).push(xv));
            assert(!views(a@).take(i as int).contains(xv)) by {
                if views(a@).take(i as int).contains(xv) {
                    let k = choose|k: int| 0 <= k < i && views(a@).take(i as int)[k] == xv;
                    assert(views(a@)[k] == views(a@)[i as int]);
                }
            }
            assert forall|y: Seq<char>| views(a@).take(i + 1).contains(y) <==> (views(a@).take(
                i as int,
            ).contains(y) || y == xv) by {
                vstd::seq_lib::lemma_seq_contains_after_push(views(a@).take(i as int), xv, y);
            }
        }
        let in_b = contains_text(b, x);
        let ghost c0 = common;
        let ghost a0 = only_a;
        assert(in_b == sb.contains(xv));
        if in_b {
            proof {
                assert(!common.contains(xv));
                lemma_push_keeps_distinct(common, xv);
                common = common.push(xv);
            }
            shared = shared + 1;
        } else {
            proof {
                assert(!only_a.contains(xv));
                lemma_push_keeps_distinct(only_a, xv);
                only_a = only_a.push(xv);
            }
            a_only = a_only + 1;
        }
        proof {
            assert forall|y: Seq<char>| common.contains(y) <==> (views(a@).take(i + 1).contains(y)
                && sb.contains(y)) by {
                vstd::seq_lib::lemma_seq_contains_after_push(views(a@).take(i as int), xv, y);
                vstd::seq_lib::lemma_seq_contains_after_push(c0, xv, y);
            }
            assert forall|y: Seq<char>| only_a.contains(y) <==> (views(a@).take(i + 1).contains(y)
                && !sb.contains(y)) by {
                vstd::seq_lib::lemma_seq_contains_after_push(views(a@).take(i as int), xv, y);
                vstd::seq_lib::lemma_seq_contains_after_push(a0, xv, y);
            }
        }
    }
    let mut b_only: usize = 0;
    let ghost mut only_b: Seq<Seq<char>> = Seq::empty();
    for j in 0..b.len()
        invariant
            sa == views(a@).to_set(),
            views(b@).no_duplicates(),
            only_b.no_duplicates(),
            only_b.len() == b_only,
            b_only <= j,
            forall|x: Seq<char>|
                only_b.contains(x) <==> (views(b@).take(j as int).contains(x) && !sa.contains(x)),
    {
        let ghost xv = views(b@)[j as int];
        proof {
            assert(b[j as int]@ == xv);
            assert(views(b@).take(j + 1) =~= views(b@).take(j as int).push(xv));
            assert(!views(b@).take(j as int).contains(xv)) by {
                if views(b@).take(j as int).contains(xv) {
                    let k = choose|k: int| 0 <= k < j && views(b@).take(j as int)[k] == xv;
                    assert(views(b@)[k] == views(b@)[j as int]);
                }
            }
            assert forall|y: Seq<char>| views(b@).take(j + 1).contains(y) <==> (views(b@).take(
                j as int,
            ).contains(y) || y == xv) by {
                vstd::seq_lib::lemma_seq_contains_after_push(views(b@).take(j as int), xv, y);
            }
        }
        let in_a = contains_text(a, b[j].as_str());
        let ghost b0 = only_b;
        assert(in_a == sa.contains(xv));
        if !in_a {
            proof {
                assert(!only_b.contains(xv));
                lemma_push_keeps_distinct(only_b, xv);
                only_b = only_b.push(xv);
            }
            b_only = b_only + 1;
        }
        proof {
            assert forall|y: Seq<char>| only_b.contains(y) <==> (views(b@).take(j + 1).contains(y)
                && !sa.contains(y)) by {
                vstd::seq_lib::lemma_seq_contains_after_push(views(b@).take(j as int), xv, y);
                vstd::seq_lib::lemma_seq_contains_after_push(b0, xv, y);
            }
        }
    }
    proof {
        assert(views(a@).take(a@.len() as int) =~= views(a@));
        assert(views(b@).take(b@.len() as int) =~= views(b@));
        assert(common.to_set() =~= sa.intersect(sb));
        assert(only_a.to_set() =~= sa.difference(sb));
        assert(only_b.to_set() =~= sb.difference(sa));
        common.unique_seq_to_set();
        only_a.unique_seq_to_set();
        only_b.unique_seq_to_set();
    }
    (shared, a_only, b_only)
}

impl DuplicationChecker {
    /// The tokens of a text, each once: the pieces of its lowercase form between
    /// characters that are not alphabetic, longer than two UTF-8 bytes and not stop words.
    pub fn tokenize(text: &str) -> (r: Vec<String>)
        ensures
            views(r@).no_duplicates(),
            views(r@).to_set() == token_set(text@),
    {
        broadcast use vstd::seq_lib::lemma_seq_contains_after_push;

        let lower = to_lowercase(text);
        let v = chars_of(lower.as_str());
        let n = v.len();
        let mut tokens: Vec<String> = Vec::new();
        let mut cur: Vec<char> = Vec::new();
        assert(v@.take(0) =~= Seq::<char>::empty());
        let mut i: usize = 0;
        while i < n
            invariant
                i <= n,
                n == v@.len(),
                v@ == lowercased(text@),
                views(tokens@).no_duplicates(),
                cur@ == word_scan(v@.take(i as int)).1,
                forall|x: Seq<char>|
                    #![trigger is_kept_word(x)]
                    is_kept_word(x) ==> (views(tokens@).contains(x) <==> word_scan(
                        v@.take(i as int),
                    ).0.contains(x)),
                forall|x: Seq<char>|
                    #![trigger is_kept_word(x)]
                    !is_kept_word(x) ==> !views(tokens@).contains(x),
            decreases n - i,
        {
            let c = v[i];
            let ghost done = word_scan(v@.take(i as int)).0;
            proof {
                assert(v@.take(i + 1).drop_last() =~= v@.take(i as int));
                assert(v@.take(i + 1).last() == c);
            }
            if char_is_alphabetic(c) {
                assert(word_scan(v@.take(i + 1)) == (done, cur@.push(c)));
                cur.push(c);
            } else {
                assert(word_scan(v@.take(i + 1)) == (done.push(cur@), Seq::<char>::empty()));
                let ghost t0 = views(tokens@);
                add_word(&mut tokens, &cur);
                proof {
                    lemma_word_ended(t0, views(tokens@), done, cur@);
                }
                cur = Vec::new();
            }
            i = i + 1;
        }
        assert(v@.take(n as int) =~= v@);
        let ghost done = word_scan(v@).0;
        let ghost t0 = views(tokens@);
        add_word(&mut tokens, &cur);
        proof {
            lemma_word_ended(t0, views(tokens@), done, cur@);
        }
        assert(words(v@) == done.push(cur@));
        assert forall|x: Seq<char>| views(tokens@).to_set().contains(x) <==> token_set(
            text@,
        ).contains(x) by {
            if is_kept_word(x) {
            }
        }
        assert(views(tokens@).to_set() =~= token_set(text@));
        tokens
    }

    /// How the tokens of two texts overlap, as `(shared, only in a, only in b)`.
    pub fn token_overlap(a: &str, b: &str) -> (r: (usize, usize, usize))
        ensures
            (r.0 as nat, r.1 as nat, r.2 as nat) == overlap_counts(token_set(a@), token_set(b@)),
    {
        let ta = Self::tokenize(a);
        let tb = Self::tokenize(b);
        count_overlap(&ta, &tb)
    }

    /// For each new task (its title and description) and each task on the board (its
    /// title), in that order, how their tokens overlap; pairs where either side has no
    /// token are left out.
    pub fn overlaps(new_tasks: &[OcPlanTask], existing: &[ExistingTask]) -> (r: Vec<TaskOverlap>)
        ensures
            r@.map_values(|o: TaskOverlap| overlap_view(o)) == all_overlaps(
                new_tasks@.map_values(|t: OcPlanTask| task_text(t)),
                existing@.map_values(|e: ExistingTask| e.title@),
                new_tasks@.len(),
            ),
    {
        let ghost nt = new_tasks@.map_values(|t: OcPlanTask| task_text(t));
        let ghost et = existing@.map_values(|e: ExistingTask| e.title@);
        let m = existing.len();
        let mut ex_tokens: Vec<Vec<String>> = Vec::new();
        for j in 0..m
            invariant
                m == existing@.len(),
                et == existing@.map_values(|e: ExistingTask| e.title@),
                ex_tokens@.len() == j,
                forall|k: int|
                    0 <= k < j ==> views(#[trigger] ex_tokens@[k]@).no_duplicates() && views(
                        ex_tokens@[k]@,
                    ).to_set() == token_set(et[k]),
        {
            let t = Self::tokenize(existing[j].title.as_str());
            ex_tokens.push(t);
        }
        let mut out: Vec<TaskOverlap> = Vec::new();
        let n = new_tasks.len();
        for i in 0..n
            invariant
                n == new_tasks@.len(),
                m == existing@.len(),
                nt == new_tasks@.map_values(|t: OcPlanTask| task_text(t)),
                et == existing@.map_values(|e: ExistingTask| e.title@),
                ex_tokens@.len() == m,
                forall|k: int|
                    0 <= k < m ==> views(#[trigger] ex_tokens@[k]@).no_duplicates() && views(
                        ex_tokens@[k]@,
                    ).to_set() == token_set(et[k]),
                out@.map_values(|o: TaskOverlap| overlap_view(o)) == all_overlaps(nt, et, i as nat),
        {
            let mut text = String::new();
            push_str(&mut text, new_tasks[i].title.as_str());
            push_str(&mut text, " ");
            push_str(&mut text, new_tasks[i].description.as_str());
            assert(text@ == nt[i as int]);
            let nt_tokens = Self::tokenize(text.as_str());
            let ghost ns = token_set(nt[i as int]);
            let ghost base = out@.map_values(|o: TaskOverlap| overlap_view(o));
            proof {
                views(nt_tokens@).unique_seq_to_set();
            }
            for j in 0..m
                invariant
                    m == existing@.len(),
                    et == existing@.map_values(|e: ExistingTask| e.title@),
                    ex_tokens@.len() == m,
                    forall|k: int|
                        0 <= k < m ==> views(#[trigger] ex_tokens@[k]@).no_duplicates() && views(
                            ex_tokens@[k]@,
                        ).to_set() == token_set(et[k]),
                    views(nt_tokens@).no_duplicates(),
                    views(nt_tokens@).to_set() == ns,
                    views(nt_tokens@).len() == ns.len(),
                    out@.map_values(|o: TaskOverlap| overlap_view(o)) == base + row_overlaps(
                        i as int,
                        ns,
                        et,
                        j as nat,
                    ),
            {
                let et_tokens = &ex_tokens[j];
                proof {
                    views(et_tokens@).unique_seq_to_set();
                }
                if nt_tokens.len() > 0 && et_tokens.len() > 0 {
                    let (shared, new_only, existing_only) = count_overlap(&nt_tokens, et_tokens);
                    let ghost before = out@.map_values(|o: TaskOverlap| overlap_view(o));
                    let o = TaskOverlap {
                        new_index: i,
                        existing_index: j,
                        shared,
                        new_only,
                        existing_only,
                    };
                    out.push(o);
                    assert(out@.map_values(|o: TaskOverlap| overlap_view(o)) =~= before.push(
                        overlap_view(o),
                    ));
                }
            }
            proof {
                assert(et.len() == m);
            }
        }
        out
    }
}

/// The overlap is symmetric: swapping the two texts swaps the two "only" counts and
/// keeps the shared count, so the similarity score does not depend on the order.
pub proof fn lemma_overlap_symmetric(a: Set<Seq<char>>, b: Set<Seq<char>>)
    ensures
        overlap_counts(a, b).0 == overlap_counts(b, a).0,
        overlap_counts(a, b).1 == overlap_counts(b, a).2,
        overlap_counts(a, b).2 == overlap_counts(b, a).1,
{
    assert(a.intersect(b) =~= b.intersect(a));
}

/// A text compared with itself shares all its tokens and has none of its own, so a task
/// that repeats one on the board gets the highest score.
pub proof fn lemma_overlap_with_itself(text: Seq<char>)
    ensures
        overlap_counts(token_set(text), token_set(text)).1 == 0,
        overlap_counts(token_set(text), token_set(text)).2 == 0,
        overlap_counts(token_set(text), token_set(text)).0 == token_set(text).len(),
{
    let s = token_set(text);
    assert(s.intersect(s) =~= s);
    assert(s.difference(s) =~= Set::<Seq<char>>::empty());
}

} // verus!
