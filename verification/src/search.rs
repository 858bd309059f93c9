//! The frequency index and the ranked search over it.
//!
//! A query selects the commands whose lowercase text contains the lowercase
//! query; the result is ordered by descending count, ties broken by text,
//! and capped.
use vstd::prelude::*;
use crate::text::contains_seq;
use crate::text::contains_substr;
use crate::text::lex_lt;
use crate::text::lower_of;
use crate::text::str_eq;
use crate::text::str_lt;
use crate::text::to_lower;

verus! {

/// One searchable entry: a command with its occurrence count.
pub struct Candidate {
    pub text: String,
    pub count: usize,
}

/// The mathematical content of a candidate.
#[verifier::ext_equal]
pub ghost struct CandView {
    pub text: Seq<char>,
    pub count: nat,
}

impl View for Candidate {
    type V = CandView;

    open spec fn view(&self) -> CandView {
        CandView { text: self.text@, count: self.count as nat }
    }
}

impl Candidate {
    /// An identical copy.
    pub fn duplicate(&self) -> (r: Candidate)
        ensures
            r@ == self@,
    {
        Candidate { text: self.text.clone(), count: self.count }
    }
}

/// The view sequence of a candidate sequence.
pub open spec fn views_of(s: Seq<Candidate>) -> Seq<CandView> {
    s.map_values(|c: Candidate| c@)
}

/// Whether a command matches a query: the empty query matches everything,
/// any other query must occur, lowercased, inside the lowercased command.
pub open spec fn matches_query(text: Seq<char>, q: Seq<char>) -> bool {
    q.len() == 0 || contains_seq(lower_of(text), lower_of(q))
}

/// The display order: more frequent first, ties broken by ascending text.
pub open spec fn rank_before(a: CandView, b: CandView) -> bool {
    a.count > b.count || (a.count == b.count && lex_lt(a.text, b.text))
}

/// `c` inserted into `s` before the first entry it outranks.
pub open spec fn insert_ranked(s: Seq<CandView>, c: CandView) -> Seq<CandView>
    decreases s.len(),
{
    if s.len() == 0 {
        seq![c]
    } else if rank_before(c, s[0]) {
        seq![c] + s
    } else {
        seq![s[0]] + insert_ranked(s.drop_first(), c)
    }
}

/// All matching entries of `entries`, in display order.
pub open spec fn ranked_matches(entries: Seq<CandView>, q: Seq<char>) -> Seq<CandView>
    decreases entries.len(),
{
    if entries.len() == 0 {
        Seq::empty()
    } else {
        let rest = ranked_matches(entries.drop_last(), q);
        if matches_query(entries.last().text, q) {
            insert_ranked(rest, entries.last())
        } else {
            rest
        }
    }
}

/// At most this many candidates are ever shown.
pub const MAX_CANDIDATES: usize = 10;

/// The ranked, capped candidate list for `entries` under `q`.
pub open spec fn rank_spec(entries: Seq<CandView>, q: Seq<char>) -> Seq<CandView> {
    let all = ranked_matches(entries, q);
    if all.len() <= MAX_CANDIDATES {
        all
    } else {
        all.take(MAX_CANDIDATES as int)
    }
}

/// How often `t` occurs among `cmds`.
pub open spec fn occurrences(cmds: Seq<Seq<char>>, t: Seq<char>) -> nat
    decreases cmds.len(),
{
    if cmds.len() == 0 {
        0
    } else {
        occurrences(cmds.drop_last(), t) + (if cmds.last() == t {
            1nat
        } else {
            0
        })
    }
}

/// The view sequence of a command list.
pub open spec fn cmd_views(cmds: Seq<String>) -> Seq<Seq<char>> {
    cmds.map_values(|s: String| s@)
}

/// An immutable mapping from distinct command text to a positive
/// occurrence count.
pub struct FrequencyIndex {
    pub entries: Vec<Candidate>,
}

impl FrequencyIndex {
    /// Texts pairwise distinct, every count positive.
    pub open spec fn wf(&self) -> bool {
        &&& forall|i: int, j: int|
            0 <= i < j < self.entries@.len() ==> self.entries@[i]@.text != self.entries@[j]@.text
        &&& forall|i: int| 0 <= i < self.entries@.len() ==> self.entries@[i]@.count > 0
    }

    /// The entries as views.
    pub open spec fn view_entries(&self) -> Seq<CandView> {
        views_of(self.entries@)
    }
}

/// Finds the entry carrying exactly this text, if any.
fn find_entry(entries: &Vec<Candidate>, text: &str) -> (r: Option<usize>)
    ensures
        match r {
            Some(j) => j < entries@.len() && entries@[j as int]@.text == text@,
            None => forall|i: int| 0 <= i < entries@.len() ==> entries@[i]@.text != text@,
        },
{
    let n = entries.len();
    let mut i: usize = 0;
    while i < n
        invariant
            i <= n,
            n == entries@.len(),
            forall|k: int| 0 <= k < i ==> entries@[k]@.text != text@,
        decreases n - i,
    {
        if str_eq(entries[i].text.as_str(), text) {
            return Some(i);
        }
        i = i + 1;
    }
    None
}

/// Builds the frequency index: one entry per distinct command, counting
/// its occurrences in `commands`.
pub fn build_frequency_map(commands: &Vec<String>) -> (idx: FrequencyIndex)
    ensures
        idx.wf(),
        forall|i: int|
            0 <= i < idx.entries@.len() ==> idx.entries@[i]@.count == occurrences(
                cmd_views(commands@),
                idx.entries@[i]@.text,
            ),
        forall|t: Seq<char>|
            occurrences(cmd_views(commands@), t) > 0 <==> exists|i: int|
                0 <= i < idx.entries@.len() && #[trigger] idx.entries@[i]@.text == t,
{
    let mut entries: Vec<Candidate> = Vec::new();
    let n = commands.len();
    let mut k: usize = 0;
    proof {
        assert(cmd_views(commands@).take(0) =~= Seq::<Seq<char>>::empty());
    }
    while k < n
        invariant
            k <= n,
            n == commands@.len(),
            forall|i: int, j: int|
                0 <= i < j < entries@.len() ==> entries@[i]@.text != entries@[j]@.text,
            forall|i: int|
                0 <= i < entries@.len() ==> entries@[i]@.count == occurrences(
                    cmd_views(commands@).take(k as int),
                    entries@[i]@.text,
                ),
            forall|i: int| 0 <= i < entries@.len() ==> 0 < #[trigger] entries@[i]@.count <= k,
            forall|t: Seq<char>|
                occurrences(cmd_views(commands@).take(k as int), t) > 0 <==> exists|i: int|
                    0 <= i < entries@.len() && #[trigger] entries@[i]@.text == t,
        decreases n - k,
    {
        let cmd: &String = &commands[k];
        let ghost prefix = cmd_views(commands@).take(k as int);
        let ghost next_prefix = cmd_views(commands@).take(k + 1);
        proof {
            assert(next_prefix.drop_last() =~= prefix);
            assert(next_prefix.last() == cmd@);
            assert(forall|t: Seq<char>|
                occurrences(next_prefix, t) == occurrences(prefix, t) + (if cmd@ == t {
                    1int
                } else {
                    0
                }));
        }
        let ghost old_entries = entries@;
        match find_entry(&entries, cmd.as_str()) {
            Some(j) => {
                let old_count = entries[j].count;
                let new_text = entries[j].text.clone();
                entries.set(j, Candidate { text: new_text, count: old_count + 1 });
                proof {
                    assert forall|t: Seq<char>|
                        occurrences(next_prefix, t) > 0 implies exists|i: int|
                        0 <= i < entries@.len() && #[trigger] entries@[i]@.text == t by {
                        if t == cmd@ {
                            assert(entries@[j as int]@.text == t);
                        } else {
                            assert(occurrences(prefix, t) > 0);
                            let i = choose|i: int|
                                0 <= i < old_entries.len() && #[trigger] old_entries[i]@.text
                                    == t;
                            assert(entries@[i]@.text == t);
                        }
                    }
                    assert forall|t: Seq<char>|
                        (exists|i: int|
                            0 <= i < entries@.len() && #[trigger] entries@[i]@.text == t)
                        implies occurrences(next_prefix, t) > 0 by {
                        let i = choose|i: int|
                            0 <= i < entries@.len() && #[trigger] entries@[i]@.text == t;
                        assert(old_entries[i]@.text == t);
                        assert(occurrences(prefix, t) > 0);
                    }
                }
            },
            None => {
                entries.push(Candidate { text: cmd.clone(), count: 1 });
                proof {
                    assert forall|t: Seq<char>|
                        occurrences(next_prefix, t) > 0 implies exists|i: int|
                        0 <= i < entries@.len() && #[trigger] entries@[i]@.text == t by {
                        if t == cmd@ {
                            assert(entries@[old_entries.len() as int]@.text == t);
                        } else {
                            assert(occurrences(prefix, t) > 0);
                            let i = choose|i: int|
                                0 <= i < old_entries.len() && #[trigger] old_entries[i]@.text
                                    == t;
                            assert(entries@[i]@.text == t);
                        }
                    }
                    assert forall|t: Seq<char>|
                        (exists|i: int|
                            0 <= i < entries@.len() && #[trigger] entries@[i]@.text == t)
                        implies occurrences(next_prefix, t) > 0 by {
                        let i = choose|i: int|
                            0 <= i < entries@.len() && #[trigger] entries@[i]@.text == t;
                        if i < old_entries.len() {
                            assert(old_entries[i]@.text == t);
                            assert(occurrences(prefix, t) > 0);
                        } else {
                            assert(t == cmd@);
                        }
                    }
                }
            },
        }
        k = k + 1;
    }
    proof {
        assert(cmd_views(commands@).take(n as int) =~= cmd_views(commands@));
    }
    FrequencyIndex { entries }
}

/// Decides the display order between two candidates.
fn cand_before(a: &Candidate, b: &Candidate) -> (r: bool)
    ensures
        r == rank_before(a@, b@),
{
    if a.count > b.count {
        true
    } else if a.count == b.count {
        str_lt(a.text.as_str(), b.text.as_str())
    } else {
        false
    }
}

/// Inserting at the first position whose entry `c` outranks produces the
/// same sequence as the recursive insertion.
proof fn lemma_insert_ranked_at(s: Seq<CandView>, c: CandView, pos: int)
    requires
        0 <= pos <= s.len(),
        forall|t: int| 0 <= t < pos ==> !rank_before(c, s[t]),
        pos == s.len() || rank_before(c, s[pos]),
    ensures
        insert_ranked(s, c) == s.insert(pos, c),
    decreases s.len(),
{
    if s.len() == 0 {
        assert(insert_ranked(s, c) =~= s.insert(0, c));
    } else if pos == 0 {
        assert(insert_ranked(s, c) =~= s.insert(0, c));
    } else {
        assert(!rank_before(c, s[0]));
        let rest = s.drop_first();
        assert(forall|t: int| 0 <= t < pos - 1 ==> !rank_before(c, rest[t]));
        lemma_insert_ranked_at(rest, c, pos - 1);
        assert(seq![s[0]] + rest.insert(pos - 1, c) =~= s.insert(pos, c));
    }
}

/// Computes the ranked, capped candidate list for `query`: every command
/// of the index whose lowercase text contains the lowercase query, ordered
/// by descending count with ties broken by ascending text, truncated to
/// the cap. A pure function of its arguments.
pub fn rank(index: &FrequencyIndex, query: &str) -> (res: Vec<Candidate>)
    ensures
        views_of(res@) == rank_spec(index.view_entries(), query@),
{
    let lq = to_lower(query);
    let mut out: Vec<Candidate> = Vec::new();
    let n = index.entries.len();
    let mut k: usize = 0;
    proof {
        assert(index.view_entries().take(0) =~= Seq::<CandView>::empty());
        assert(views_of(out@) =~= Seq::<CandView>::empty());
    }
    while k < n
        invariant
            k <= n,
            n == index.entries@.len(),
            lq@ == lower_of(query@),
            query@.len() == 0 ==> lq@.len() == 0,
            views_of(out@) == ranked_matches(index.view_entries().take(k as int), query@),
        decreases n - k,
    {
        let e: &Candidate = &index.entries[k];
        let ghost prefix = index.view_entries().take(k as int);
        let ghost next_prefix = index.view_entries().take(k + 1);
        proof {
            assert(next_prefix.drop_last() =~= prefix);
            assert(next_prefix.last() == e@);
        }
        let lt = to_lower(e.text.as_str());
        let m = contains_substr(lt.as_str(), lq.as_str());
        proof {
            if query@.len() == 0 {
                assert(lower_of(query@) =~= Seq::<char>::empty());
                assert(lt@.subrange(0, 0) =~= Seq::<char>::empty());
                assert(crate::text::is_match_at(lt@, lq@, 0));
            }
            assert(m == matches_query(e@.text, query@));
        }
        if m {
            let c = e.duplicate();
            let mut pos: usize = 0;
            loop
                invariant
                    pos <= out@.len(),
                    forall|t: int| 0 <= t < pos ==> !rank_before(c@, out@[t]@),
                ensures
                    pos <= out@.len(),
                    forall|t: int| 0 <= t < pos ==> !rank_before(c@, out@[t]@),
                    pos == out@.len() || rank_before(c@, out@[pos as int]@),
                decreases out@.len() - pos,
            {
                if pos == out.len() {
                    break;
                }
                if cand_before(&c, &out[pos]) {
                    break;
                }
                pos = pos + 1;
            }
            let ghost old_out = out@;
            out.insert(pos, c);
            proof {
                assert(forall|t: int| 0 <= t < pos ==> views_of(old_out)[t] == old_out[t]@);
                assert(pos == old_out.len() || views_of(old_out)[pos as int] == old_out[
                    pos as int
                ]@);
                lemma_insert_ranked_at(views_of(old_out), c@, pos as int);
                assert(views_of(out@) =~= views_of(old_out).insert(pos as int, c@));
            }
        }
        k = k + 1;
    }
    proof {
        assert(index.view_entries().take(n as int) =~= index.view_entries());
    }
    let ghost full = views_of(out@);
    out.truncate(MAX_CANDIDATES);
    proof {
        if full.len() > MAX_CANDIDATES {
            assert(views_of(out@) =~= full.take(MAX_CANDIDATES as int));
        }
    }
    out
}

/// How many entries match the query.
pub open spec fn count_matching(entries: Seq<CandView>, q: Seq<char>) -> nat
    decreases entries.len(),
{
    if entries.len() == 0 {
        0
    } else {
        count_matching(entries.drop_last(), q) + (if matches_query(entries.last().text, q) {
            1nat
        } else {
            0
        })
    }
}

/// Whether a candidate sequence stands in display order.
pub open spec fn ranked_ordered(s: Seq<CandView>) -> bool {
    forall|i: int, j: int| 0 <= i < j < s.len() ==> !rank_before(s[j], s[i])
}

proof fn lemma_lex_lt_trans(a: Seq<char>, b: Seq<char>, c: Seq<char>)
    requires
        lex_lt(a, b),
        lex_lt(b, c),
    ensures
        lex_lt(a, c),
    decreases a.len(),
{
    if a.len() > 0 && b.len() > 0 && c.len() > 0 && a[0] == b[0] && b[0] == c[0] {
        lemma_lex_lt_trans(a.drop_first(), b.drop_first(), c.drop_first());
    }
}

proof fn lemma_rank_before_trans(x: CandView, y: CandView, z: CandView)
    requires
        rank_before(x, y),
        rank_before(y, z),
    ensures
        rank_before(x, z),
{
    if x.count == y.count && y.count == z.count {
        lemma_lex_lt_trans(x.text, y.text, z.text);
    }
}

proof fn lemma_insert_ranked_len(s: Seq<CandView>, c: CandView)
    ensures
        insert_ranked(s, c).len() == s.len() + 1,
    decreases s.len(),
{
    if s.len() > 0 && !rank_before(c, s[0]) {
        lemma_insert_ranked_len(s.drop_first(), c);
    }
}

proof fn lemma_insert_ranked_contains(s: Seq<CandView>, c: CandView)
    ensures
        forall|x: CandView|
            #[trigger] insert_ranked(s, c).contains(x) <==> (s.contains(x) || x == c),
        forall|x: CandView| #[trigger] s.contains(x) ==> insert_ranked(s, c).contains(x),
        insert_ranked(s, c).contains(c),
    decreases s.len(),
{
    let r = insert_ranked(s, c);
    if s.len() == 0 {
        assert forall|x: CandView| r.contains(x) <==> (s.contains(x) || x == c) by {
            if x == c {
                assert(r[0] == c);
            }
        }
    } else if rank_before(c, s[0]) {
        assert forall|x: CandView| r.contains(x) <==> (s.contains(x) || x == c) by {
            if r.contains(x) {
                let i = choose|i: int| 0 <= i < r.len() && r[i] == x;
                if i > 0 {
                    assert(s[i - 1] == x);
                }
            }
            if s.contains(x) {
                let i = choose|i: int| 0 <= i < s.len() && s[i] == x;
                assert(r[i + 1] == x);
            }
            if x == c {
                assert(r[0] == c);
            }
        }
    } else {
        let rest = s.drop_first();
        lemma_insert_ranked_contains(rest, c);
        let ir = insert_ranked(rest, c);
        assert forall|x: CandView| r.contains(x) <==> (s.contains(x) || x == c) by {
            if r.contains(x) {
                let i = choose|i: int| 0 <= i < r.len() && r[i] == x;
                if i == 0 {
                    assert(s[0] == x);
                } else {
                    assert(ir[i - 1] == x);
                    assert(ir.contains(x));
                    if rest.contains(x) {
                        let j = choose|j: int| 0 <= j < rest.len() && rest[j] == x;
                        assert(s[j + 1] == x);
                    }
                }
            }
            if s.contains(x) {
                let i = choose|i: int| 0 <= i < s.len() && s[i] == x;
                if i == 0 {
                    assert(r[0] == x);
                } else {
                    assert(rest[i - 1] == x);
                    assert(rest.contains(x)) by {
                        assert(0 <= i - 1 < rest.len() && rest[i - 1] == x);
                    }
                    assert(ir.contains(x));
                    let j = choose|j: int| 0 <= j < ir.len() && ir[j] == x;
                    assert(r[j + 1] == x);
                    assert(r.contains(x)) by {
                        assert(0 <= j + 1 < r.len() && r[j + 1] == x);
                    }
                }
            }
            if x == c {
                assert(ir.contains(x));
                let j = choose|j: int| 0 <= j < ir.len() && ir[j] == x;
                assert(r[j + 1] == x);
                assert(r.contains(x)) by {
                    assert(0 <= j + 1 < r.len() && r[j + 1] == x);
                }
            }
        }
    }
}

proof fn lemma_insert_ranked_ordered(s: Seq<CandView>, c: CandView)
    requires
        ranked_ordered(s),
    ensures
        ranked_ordered(insert_ranked(s, c)),
    decreases s.len(),
{
    let r = insert_ranked(s, c);
    if s.len() == 0 {
        assert(ranked_ordered(r));
    } else if rank_before(c, s[0]) {
        assert forall|i: int, j: int| 0 <= i < j < r.len() implies !rank_before(r[j], r[i]) by {
            if i == 0 {
                assert(r[j] == s[j - 1]);
                if rank_before(s[j - 1], c) {
                    lemma_rank_before_trans(s[j - 1], c, s[0]);
                    lemma_rank_before_irrefl(s[0]);
                }
            } else {
                assert(r[i] == s[i - 1] && r[j] == s[j - 1]);
            }
        }
    } else {
        let rest = s.drop_first();
        assert forall|i: int, j: int| 0 <= i < j < rest.len() implies !rank_before(
            rest[j],
            rest[i],
        ) by {
            assert(rest[j] == s[j + 1] && rest[i] == s[i + 1]);
        }
        lemma_insert_ranked_ordered(rest, c);
        lemma_insert_ranked_contains(rest, c);
        let ir = insert_ranked(rest, c);
        assert forall|i: int, j: int| 0 <= i < j < r.len() implies !rank_before(r[j], r[i]) by {
            if i == 0 {
                assert(r[j] == ir[j - 1]);
                assert(ir.contains(ir[j - 1]));
                if ir[j - 1] == c {
                    assert(!rank_before(c, s[0]));
                } else {
                    assert(rest.contains(ir[j - 1]));
                    let t = choose|t: int| 0 <= t < rest.len() && rest[t] == ir[j - 1];
                    assert(rest[t] == s[t + 1]);
                    assert(!rank_before(s[t + 1], s[0]));
                }
            } else {
                assert(r[i] == ir[i - 1] && r[j] == ir[j - 1]);
            }
        }
    }
}

proof fn lemma_rank_before_irrefl(x: CandView)
    ensures
        !rank_before(x, x),
{
    lemma_lex_lt_irrefl(x.text);
}

proof fn lemma_lex_lt_irrefl(a: Seq<char>)
    ensures
        !lex_lt(a, a),
    decreases a.len(),
{
    if a.len() > 0 {
        lemma_lex_lt_irrefl(a.drop_first());
    }
}

/// The ranked matching list holds exactly the matching entries.
pub proof fn lemma_ranked_matches_contains(entries: Seq<CandView>, q: Seq<char>)
    ensures
        forall|x: CandView|
            #[trigger] ranked_matches(entries, q).contains(x) <==> (entries.contains(x)
                && matches_query(x.text, q)),
        forall|x: CandView|
            #[trigger] entries.contains(x) && matches_query(x.text, q) ==> ranked_matches(
                entries,
                q,
            ).contains(x),
    decreases entries.len(),
{
    if entries.len() > 0 {
        let head = entries.drop_last();
        lemma_ranked_matches_contains(head, q);
        let rest = ranked_matches(head, q);
        let last = entries.last();
        assert forall|x: CandView|
            ranked_matches(entries, q).contains(x) <==> (entries.contains(x) && matches_query(
                x.text,
                q,
            )) by {
            if matches_query(last.text, q) {
                lemma_insert_ranked_contains(rest, last);
            }
            if head.contains(x) {
                let i = choose|i: int| 0 <= i < head.len() && head[i] == x;
                assert(entries[i] == x);
            }
            if entries.contains(x) {
                let i = choose|i: int| 0 <= i < entries.len() && entries[i] == x;
                if i < entries.len() - 1 {
                    assert(head[i] == x);
                } else {
                    assert(x == last);
                }
            }
        }
    }
}

/// The ranked matching list counts every match exactly once per entry.
pub proof fn lemma_ranked_matches_len(entries: Seq<CandView>, q: Seq<char>)
    ensures
        ranked_matches(entries, q).len() == count_matching(entries, q),
    decreases entries.len(),
{
    if entries.len() > 0 {
        lemma_ranked_matches_len(entries.drop_last(), q);
        if matches_query(entries.last().text, q) {
            lemma_insert_ranked_len(ranked_matches(entries.drop_last(), q), entries.last());
        }
    }
}

/// The ranked matching list stands in display order.
pub proof fn lemma_ranked_matches_ordered(entries: Seq<CandView>, q: Seq<char>)
    ensures
        ranked_ordered(ranked_matches(entries, q)),
    decreases entries.len(),
{
    if entries.len() > 0 {
        lemma_ranked_matches_ordered(entries.drop_last(), q);
        if matches_query(entries.last().text, q) {
            lemma_insert_ranked_ordered(ranked_matches(entries.drop_last(), q), entries.last());
        }
    }
}

/// Every ranked candidate matches the query and comes from the index, and
/// the list stands in display order. With the membership law below this
/// says the result is exactly the top of the sorted matching set.
pub proof fn lemma_rank_members(entries: Seq<CandView>, q: Seq<char>)
    ensures
        forall|i: int|
            0 <= i < rank_spec(entries, q).len() ==> matches_query(
                #[trigger] rank_spec(entries, q)[i].text,
                q,
            ) && entries.contains(rank_spec(entries, q)[i]),
        ranked_ordered(rank_spec(entries, q)),
        rank_spec(entries, q).len() == if count_matching(entries, q) <= MAX_CANDIDATES {
            count_matching(entries, q)
        } else {
            MAX_CANDIDATES as nat
        },
{
    let all = ranked_matches(entries, q);
    let r = rank_spec(entries, q);
    lemma_ranked_matches_contains(entries, q);
    lemma_ranked_matches_len(entries, q);
    lemma_ranked_matches_ordered(entries, q);
    assert forall|i: int|
        0 <= i < r.len() implies matches_query(#[trigger] r[i].text, q) && entries.contains(
        r[i],
    ) by {
        assert(r[i] == all[i]);
        assert(all.contains(r[i])) by {
            assert(0 <= i < all.len() && all[i] == r[i]);
        }
    }
}

/// No matching command is left out: it either appears in the ranked list,
/// or the list is full and every shown candidate ranks at or above it.
pub proof fn lemma_rank_complete(entries: Seq<CandView>, q: Seq<char>, x: CandView)
    requires
        entries.contains(x),
        matches_query(x.text, q),
    ensures
        rank_spec(entries, q).contains(x) || (rank_spec(entries, q).len()
            == MAX_CANDIDATES as nat && forall|i: int|
            0 <= i < rank_spec(entries, q).len() ==> !rank_before(
                x,
                #[trigger] rank_spec(entries, q)[i],
            )),
{
    let all = ranked_matches(entries, q);
    let r = rank_spec(entries, q);
    lemma_ranked_matches_contains(entries, q);
    lemma_ranked_matches_ordered(entries, q);
    assert(all.contains(x));
    let p = choose|p: int| 0 <= p < all.len() && all[p] == x;
    if all.len() <= MAX_CANDIDATES {
        assert(r.contains(x));
    } else if p < MAX_CANDIDATES {
        assert(r[p] == x);
        assert(r.contains(x));
    } else {
        assert forall|i: int| 0 <= i < r.len() implies !rank_before(x, #[trigger] r[i]) by {
            assert(r[i] == all[i]);
            assert(!rank_before(all[p], all[i]));
        }
    }
}

/// Ranking is a pure function: any two results of ranking the same index
/// with the same query are the same.
pub proof fn lemma_rank_pure(
    r1: Seq<CandView>,
    r2: Seq<CandView>,
    entries: Seq<CandView>,
    q: Seq<char>,
)
    requires
        r1 == rank_spec(entries, q),
        r2 == rank_spec(entries, q),
    ensures
        r1 == r2,
{
}

/// The empty query matches everything: the ranked list holds the whole
/// index up to the cap, in display order.
pub proof fn lemma_rank_empty_query(entries: Seq<CandView>, q: Seq<char>)
    requires
        q.len() == 0,
    ensures
        count_matching(entries, q) == entries.len(),
        rank_spec(entries, q).len() == if entries.len() <= MAX_CANDIDATES {
            entries.len()
        } else {
            MAX_CANDIDATES as nat
        },
        ranked_ordered(rank_spec(entries, q)),
    decreases entries.len(),
{
    if entries.len() > 0 {
        lemma_rank_empty_query(entries.drop_last(), q);
    }
    lemma_rank_members(entries, q);
}

} // verus!
