use crate::distance::{lemma_lev_le_max, lev, max_len};
use crate::score::{
    hit_exec, is_hit, lemma_score_ge_total, lemma_score_ge_trans, score_ge, score_ge_exec,
    score_hundredths, score_hundredths_exec,
};
use crate::text::{hit_text, miss_message, render_hit, render_miss};
use crate::{RunError, Song};
use vstd::prelude::*;
use vstd::string::StrSliceExecFns;

verus! {

/// The index of the catalog entry with the highest similarity to `req`,
/// the earliest such entry on equal scores.
pub open spec fn best_idx(req: Seq<char>, cat: Seq<Song>) -> int
    recommends
        cat.len() > 0,
    decreases cat.len(),
{
    if cat.len() <= 1 {
        0
    } else {
        let prev = best_idx(req, cat.drop_last());
        let last = cat.len() - 1;
        if !score_ge(req, cat[prev].name@, cat[last].name@) {
            last
        } else {
            prev
        }
    }
}

/// The best entry for `req` scores at least 0.6.
pub open spec fn is_hit_at(req: Seq<char>, cat: Seq<Song>) -> bool
    recommends
        cat.len() > 0,
{
    is_hit(req, cat[best_idx(req, cat)].name@)
}

/// What one requested name resolves to: the hit text, or nothing for a
/// miss.
pub open spec fn resolved_slot(req: Seq<char>, cat: Seq<Song>, abs: bool) -> Option<Seq<char>>
    recommends
        cat.len() > 0,
{
    if is_hit_at(req, cat) {
        Some(hit_text(cat[best_idx(req, cat)], abs))
    } else {
        None
    }
}

/// The diagnostic record for a requested name that missed, carrying its
/// original index `i`.
pub open spec fn miss_text_at(i: int, req: Seq<char>, cat: Seq<Song>) -> Seq<char>
    recommends
        cat.len() > 0,
{
    let b = best_idx(req, cat);
    miss_message(
        i,
        req,
        cat[b].name@,
        score_hundredths(lev(req, cat[b].name@), max_len(req, cat[b].name@)),
    )
}

/// Scans the whole catalog and returns the index of the entry whose name
/// has the highest normalized similarity to `target`; on equal scores the
/// first entry encountered wins. Returns nothing only for an empty
/// catalog.
pub fn find_best_match(target: &str, candidates: &Vec<Song>) -> (r: Option<usize>)
    ensures
        (r is None) <==> candidates@.len() == 0,
        candidates@.len() > 0 ==> r is Some && r.unwrap() as int == best_idx(
            target@,
            candidates@,
        ),
        candidates@.len() > 0 ==> ({
            let b = best_idx(target@, candidates@);
            &&& 0 <= b < candidates@.len()
            &&& forall|j: int|
                0 <= j < candidates@.len() ==> score_ge(
                    target@,
                    candidates@[b].name@,
                    candidates@[j].name@,
                )
            &&& forall|j: int|
                0 <= j < b ==> !score_ge(target@, candidates@[j].name@, candidates@[b].name@)
        }),
{
    let ghost t = target@;
    let ghost cs = candidates@;
    if candidates.len() == 0 {
        return None;
    }
    let tlen = target.unicode_len();
    let first_name = candidates[0].name.as_str();
    let mut best_i: usize = 0;
    let mut best_d: usize = crate::distance::levenshtein(target, first_name);
    let nl0 = first_name.unicode_len();
    let mut best_m: usize = if tlen >= nl0 {
        tlen
    } else {
        nl0
    };
    let mut i: usize = 1;
    proof {
        assert(cs.take(1).len() == 1);
        assert(cs.take(1)[0] == cs[0]);
    }
    while i < candidates.len()
        invariant
            1 <= i <= cs.len(),
            cs == candidates@,
            t == target@,
            tlen as nat == t.len(),
            0 <= best_i < i,
            best_d as nat == lev(t, cs[best_i as int].name@),
            best_m as nat == max_len(t, cs[best_i as int].name@),
            best_i as int == best_idx(t, cs.take(i as int)),
            forall|j: int|
                0 <= j < i ==> score_ge(t, cs[best_i as int].name@, #[trigger] cs[j].name@),
            forall|j: int|
                0 <= j < best_i ==> !score_ge(t, #[trigger] cs[j].name@, cs[best_i as int].name@),
        decreases cs.len() - i,
    {
        let name = candidates[i].name.as_str();
        let d = crate::distance::levenshtein(target, name);
        let nl = name.unicode_len();
        let m = if tlen >= nl {
            tlen
        } else {
            nl
        };
        let ghost old_best = best_i as int;
        let replace = !score_ge_exec(best_d, best_m, d, m);
        proof {
            lemma_lev_le_max(t, cs[old_best].name@);
            lemma_lev_le_max(t, cs[i as int].name@);
            let pre = cs.take(i as int + 1);
            assert(pre.drop_last() =~= cs.take(i as int));
            assert(pre.last() == cs[i as int]);
            assert(pre.len() == i as int + 1);
            assert(forall|k: int| 0 <= k < pre.len() ==> pre[k] == cs[k]);
            if replace {
                lemma_score_ge_total(
                    lev(t, cs[old_best].name@),
                    max_len(t, cs[old_best].name@),
                    lev(t, cs[i as int].name@),
                    max_len(t, cs[i as int].name@),
                );
                assert(score_ge(t, cs[i as int].name@, cs[old_best].name@));
                assert forall|j: int| 0 <= j < i + 1 implies score_ge(
                    t,
                    cs[i as int].name@,
                    #[trigger] cs[j].name@,
                ) by {
                    if j < i {
                        lemma_lev_le_max(t, cs[j].name@);
                        lemma_score_ge_trans(
                            lev(t, cs[i as int].name@),
                            max_len(t, cs[i as int].name@),
                            lev(t, cs[old_best].name@),
                            max_len(t, cs[old_best].name@),
                            lev(t, cs[j].name@),
                            max_len(t, cs[j].name@),
                        );
                    }
                }
                assert forall|j: int| 0 <= j < i implies !score_ge(
                    t,
                    #[trigger] cs[j].name@,
                    cs[i as int].name@,
                ) by {
                    lemma_lev_le_max(t, cs[j].name@);
                    if score_ge(t, cs[j].name@, cs[i as int].name@) {
                        lemma_score_ge_trans(
                            lev(t, cs[old_best].name@),
                            max_len(t, cs[old_best].name@),
                            lev(t, cs[j].name@),
                            max_len(t, cs[j].name@),
                            lev(t, cs[i as int].name@),
                            max_len(t, cs[i as int].name@),
                        );
                    }
                }
                assert(best_idx(t, pre) == i as int);
            } else {
                assert(best_idx(t, pre) == old_best);
            }
        }
        if replace {
            best_i = i;
            best_d = d;
            best_m = m;
        }
        i = i + 1;
    }
    proof {
        assert(cs.take(cs.len() as int) =~= cs);
    }
    Some(best_i)
}

/// Resolves one requested name against the catalog: the rendered hit
/// text, or the rendered diagnostic record carrying the original index
/// `idx`.
pub(crate) fn resolve_request(idx: usize, req: &str, cat: &Vec<Song>, abs: bool) -> (r: Result<
    String,
    String,
>)
    requires
        cat@.len() > 0,
    ensures
        ({
            let b = best_idx(req@, cat@);
            match r {
                Ok(h) => is_hit_at(req@, cat@) && h@ == hit_text(cat@[b], abs),
                Err(m) => !is_hit_at(req@, cat@) && m@ == miss_text_at(idx as int, req@, cat@),
            }
        }),
{
    let bi = find_best_match(req, cat).unwrap();
    let ghost b = best_idx(req@, cat@);
    proof {
        assert(bi as int == b);
        assert(0 <= b < cat@.len());
    }
    let name = cat[bi].name.as_str();
    let d = crate::distance::levenshtein(req, name);
    let tl = req.unicode_len();
    let nl = name.unicode_len();
    let m = if tl >= nl {
        tl
    } else {
        nl
    };
    if hit_exec(d, m) {
        Ok(render_hit(&cat[bi], abs))
    } else {
        proof {
            lemma_lev_le_max(req@, cat@[b].name@);
        }
        let h = score_hundredths_exec(d, m);
        Err(render_miss(idx, req, name, h))
    }
}

/// The hit texts of a run over `list`, in input order, misses omitted.
pub open spec fn hits_of(list: Seq<String>, cat: Seq<Song>, abs: bool) -> Seq<Seq<char>>
    decreases list.len(),
{
    if list.len() == 0 {
        Seq::empty()
    } else {
        let pre = hits_of(list.drop_last(), cat, abs);
        if is_hit_at(list.last()@, cat) {
            pre.push(hit_text(cat[best_idx(list.last()@, cat)], abs))
        } else {
            pre
        }
    }
}

/// The miss records of a run over `list`, in ascending original-index
/// order; `start` is the original index of the first element of `list`.
pub open spec fn misses_of(list: Seq<String>, cat: Seq<Song>, start: int) -> Seq<Seq<char>>
    decreases list.len(),
{
    if list.len() == 0 {
        Seq::empty()
    } else {
        let pre = misses_of(list.drop_last(), cat, start);
        if is_hit_at(list.last()@, cat) {
            pre
        } else {
            pre.push(miss_text_at(start + list.len() - 1, list.last()@, cat))
        }
    }
}

/// One result slot per requested name: the hit text or nothing.
pub open spec fn slots_of(list: Seq<String>, cat: Seq<Song>, abs: bool) -> Seq<
    Option<Seq<char>>,
> {
    Seq::new(list.len(), |k: int| resolved_slot(list[k]@, cat, abs))
}

/// The hit texts held in a slot sequence, in slot order.
pub open spec fn hits_from_slots(s: Seq<Option<Seq<char>>>) -> Seq<Seq<char>>
    decreases s.len(),
{
    if s.len() == 0 {
        Seq::empty()
    } else {
        let pre = hits_from_slots(s.drop_last());
        match s.last() {
            Some(t) => pre.push(t),
            None => pre,
        }
    }
}

/// Concatenation of a sequence of sequences, in order.
pub open spec fn concat_all<A>(s: Seq<Seq<A>>) -> Seq<A>
    decreases s.len(),
{
    if s.len() == 0 {
        Seq::empty()
    } else {
        concat_all(s.drop_last()) + s.last()
    }
}

/// Reading the hits out of the slots of a run gives exactly the run's
/// hit sequence.
pub proof fn lemma_hits_from_slots(list: Seq<String>, cat: Seq<Song>, abs: bool)
    ensures
        hits_from_slots(slots_of(list, cat, abs)) == hits_of(list, cat, abs),
    decreases list.len(),
{
    if list.len() == 0 {
        assert(slots_of(list, cat, abs).len() == 0);
    } else {
        lemma_hits_from_slots(list.drop_last(), cat, abs);
        assert(slots_of(list, cat, abs).drop_last() =~= slots_of(list.drop_last(), cat, abs));
        assert(slots_of(list, cat, abs).last() == resolved_slot(list.last()@, cat, abs));
    }
}

/// Misses over a split list are the misses of the two halves, with the
/// second half's indices shifted past the first.
pub proof fn lemma_misses_of_concat(l1: Seq<String>, l2: Seq<String>, cat: Seq<Song>, s: int)
    ensures
        misses_of(l1 + l2, cat, s) == misses_of(l1, cat, s) + misses_of(l2, cat, s + l1.len()),
    decreases l2.len(),
{
    if l2.len() == 0 {
        assert(l1 + l2 =~= l1);
        assert(misses_of(l1, cat, s) + misses_of(l2, cat, s + l1.len()) =~= misses_of(
            l1,
            cat,
            s,
        ));
    } else {
        lemma_misses_of_concat(l1, l2.drop_last(), cat, s);
        assert((l1 + l2).drop_last() =~= l1 + l2.drop_last());
        assert((l1 + l2).last() == l2.last());
        if !is_hit_at(l2.last()@, cat) {
            assert(misses_of(l1 + l2, cat, s) =~= misses_of(l1, cat, s) + misses_of(
                l2,
                cat,
                s + l1.len(),
            ));
        }
    }
}

/// Hits over a split list are the hits of the two halves, in order.
pub proof fn lemma_hits_of_concat(l1: Seq<String>, l2: Seq<String>, cat: Seq<Song>, abs: bool)
    ensures
        hits_of(l1 + l2, cat, abs) == hits_of(l1, cat, abs) + hits_of(l2, cat, abs),
    decreases l2.len(),
{
    if l2.len() == 0 {
        assert(l1 + l2 =~= l1);
        assert(hits_of(l1, cat, abs) + hits_of(l2, cat, abs) =~= hits_of(l1, cat, abs));
    } else {
        lemma_hits_of_concat(l1, l2.drop_last(), cat, abs);
        assert((l1 + l2).drop_last() =~= l1 + l2.drop_last());
        assert((l1 + l2).last() == l2.last());
        if is_hit_at(l2.last()@, cat) {
            assert(hits_of(l1 + l2, cat, abs) =~= hits_of(l1, cat, abs) + hits_of(
                l2,
                cat,
                abs,
            ));
        }
    }
}

/// Chunked resolution agrees with sequential resolution: however the
/// requested-name list is cut into contiguous chunks, resolving the
/// chunks separately (the misses of a chunk starting at its original
/// index) and concatenating the outputs in chunk order yields exactly the
/// sequential run's hit sequence and miss records. Applied once per cut,
/// this is what makes the chunked driver's outputs identical to the
/// sequential driver's.
pub proof fn lemma_chunked_run_agrees(l1: Seq<String>, l2: Seq<String>, cat: Seq<Song>, abs: bool)
    ensures
        hits_of(l1 + l2, cat, abs) == hits_of(l1, cat, abs) + hits_of(l2, cat, abs),
        misses_of(l1 + l2, cat, 0) == misses_of(l1, cat, 0) + misses_of(
            l2,
            cat,
            l1.len() as int,
        ),
{
    lemma_hits_of_concat(l1, l2, cat, abs);
    lemma_misses_of_concat(l1, l2, cat, 0);
}

/// The numbers of hits and misses in a run add up to the number of
/// requested names.
pub proof fn lemma_hits_misses_count(list: Seq<String>, cat: Seq<Song>, abs: bool, start: int)
    ensures
        hits_of(list, cat, abs).len() + misses_of(list, cat, start).len() == list.len(),
    decreases list.len(),
{
    if list.len() > 0 {
        lemma_hits_misses_count(list.drop_last(), cat, abs, start);
    }
}

/// The original indices of the names classified as hits, ascending.
pub open spec fn hit_indices(list: Seq<String>, cat: Seq<Song>) -> Seq<int>
    decreases list.len(),
{
    if list.len() == 0 {
        Seq::empty()
    } else {
        let pre = hit_indices(list.drop_last(), cat);
        if is_hit_at(list.last()@, cat) {
            pre.push(list.len() - 1)
        } else {
            pre
        }
    }
}

/// The original indices of the names classified as misses, ascending.
pub open spec fn miss_indices(list: Seq<String>, cat: Seq<Song>) -> Seq<int>
    decreases list.len(),
{
    if list.len() == 0 {
        Seq::empty()
    } else {
        let pre = miss_indices(list.drop_last(), cat);
        if is_hit_at(list.last()@, cat) {
            pre
        } else {
            pre.push(list.len() - 1)
        }
    }
}

/// Every run classifies each original index exactly once: there is one
/// hit per hit index and one miss record per miss index, the two index
/// sequences are strictly ascending (so no index twice), an index lies in
/// exactly one of them, and together they cover `0 .. n` exactly.
pub proof fn lemma_indices_partition(list: Seq<String>, cat: Seq<Song>, abs: bool, start: int)
    ensures
        hit_indices(list, cat).len() == hits_of(list, cat, abs).len(),
        miss_indices(list, cat).len() == misses_of(list, cat, start).len(),
        hit_indices(list, cat).len() + miss_indices(list, cat).len() == list.len(),
        forall|k: int|
            0 <= k < hit_indices(list, cat).len() ==> 0 <= #[trigger] hit_indices(list, cat)[k]
                < list.len(),
        forall|k: int|
            0 <= k < miss_indices(list, cat).len() ==> 0 <= #[trigger] miss_indices(list, cat)[k]
                < list.len(),
        forall|k1: int, k2: int|
            0 <= k1 < k2 < hit_indices(list, cat).len() ==> #[trigger] hit_indices(list, cat)[k1]
                < #[trigger] hit_indices(list, cat)[k2],
        forall|k1: int, k2: int|
            0 <= k1 < k2 < miss_indices(list, cat).len() ==> #[trigger] miss_indices(list, cat)[k1]
                < #[trigger] miss_indices(list, cat)[k2],
        forall|i: int|
            #[trigger] hit_indices(list, cat).contains(i) <==> (0 <= i < list.len() && is_hit_at(
                list[i]@,
                cat,
            )),
        forall|i: int|
            #[trigger] miss_indices(list, cat).contains(i) <==> (0 <= i < list.len()
                && !is_hit_at(list[i]@, cat)),
    decreases list.len(),
{
    if list.len() == 0 {
        assert forall|i: int| !hit_indices(list, cat).contains(i) by {
            if hit_indices(list, cat).contains(i) {
                let k = choose|k: int|
                    0 <= k < hit_indices(list, cat).len() && hit_indices(list, cat)[k] == i;
            }
        }
        assert forall|i: int| !miss_indices(list, cat).contains(i) by {
            if miss_indices(list, cat).contains(i) {
                let k = choose|k: int|
                    0 <= k < miss_indices(list, cat).len() && miss_indices(list, cat)[k] == i;
            }
        }
    } else {
        let pre = list.drop_last();
        let n = list.len() as int;
        lemma_indices_partition(pre, cat, abs, start);
        assert(forall|i: int| 0 <= i < n - 1 ==> pre[i] == list[i]);
        let hs = hit_indices(list, cat);
        let hp = hit_indices(pre, cat);
        let ms = miss_indices(list, cat);
        let mp = miss_indices(pre, cat);
        assert forall|i: int| #[trigger] hs.contains(i) implies (0 <= i < n && is_hit_at(
            list[i]@,
            cat,
        )) by {
            let k = choose|k: int| 0 <= k < hs.len() && hs[k] == i;
            if k < hp.len() {
                assert(hp[k] == i);
                assert(hp.contains(i));
            }
        }
        assert forall|i: int| (0 <= i < n && is_hit_at(list[i]@, cat)) implies #[trigger] hs
            .contains(i) by {
            if i < n - 1 {
                assert(hp.contains(i));
                let k = choose|k: int| 0 <= k < hp.len() && hp[k] == i;
                assert(hs[k] == i);
            } else {
                assert(is_hit_at(list.last()@, cat));
                assert(hs[hs.len() - 1] == i);
            }
        }
        assert forall|i: int| #[trigger] ms.contains(i) implies (0 <= i < n && !is_hit_at(
            list[i]@,
            cat,
        )) by {
            let k = choose|k: int| 0 <= k < ms.len() && ms[k] == i;
            if k < mp.len() {
                assert(mp[k] == i);
                assert(mp.contains(i));
            }
        }
        assert forall|i: int| (0 <= i < n && !is_hit_at(list[i]@, cat)) implies #[trigger] ms
            .contains(i) by {
            if i < n - 1 {
                assert(mp.contains(i));
                let k = choose|k: int| 0 <= k < mp.len() && mp[k] == i;
                assert(ms[k] == i);
            } else {
                assert(ms[ms.len() - 1] == i);
            }
        }
    }
}

/// Resolves every requested name in input order against the catalog and
/// classifies each as a hit or a miss. Fails with `EmptyCatalog` exactly
/// when there is at least one name to resolve and no candidate at all.
pub fn list_to_m3u_fuzzy(user_list: &Vec<String>, local_song: &Vec<Song>, is_absolute_path: bool)
    -> (r: Result<(Vec<String>, Vec<String>), RunError>)
    ensures
        (r is Ok) <==> (user_list@.len() == 0 || local_song@.len() > 0),
        r is Err ==> r->Err_0 == RunError::EmptyCatalog,
        r is Ok ==> r->Ok_0.0.deep_view() == hits_of(user_list@, local_song@, is_absolute_path),
        r is Ok ==> r->Ok_0.1.deep_view() == misses_of(user_list@, local_song@, 0),
        r is Ok ==> r->Ok_0.0@.len() + r->Ok_0.1@.len() == user_list@.len(),
{
    let ghost l = user_list@;
    let ghost cat = local_song@;
    if local_song.len() == 0 {
        if user_list.len() == 0 {
            let hits: Vec<String> = Vec::new();
            let misses: Vec<String> = Vec::new();
            proof {
                assert(hits.deep_view() =~= hits_of(l, cat, is_absolute_path));
                assert(misses.deep_view() =~= misses_of(l, cat, 0));
            }
            return Ok((hits, misses));
        }
        return Err(RunError::EmptyCatalog);
    }
    let mut hits: Vec<String> = Vec::new();
    let mut misses: Vec<String> = Vec::new();
    let n = user_list.len();
    let mut i: usize = 0;
    proof {
        assert(l.take(0) =~= Seq::<String>::empty());
        assert(hits.deep_view() =~= hits_of(l.take(0), cat, is_absolute_path));
        assert(misses.deep_view() =~= misses_of(l.take(0), cat, 0));
    }
    while i < n
        invariant
            i <= n,
            n == l.len(),
            l == user_list@,
            cat == local_song@,
            cat.len() > 0,
            hits.deep_view() == hits_of(l.take(i as int), cat, is_absolute_path),
            misses.deep_view() == misses_of(l.take(i as int), cat, 0),
        decreases n - i,
    {
        let ghost old_hits = hits.deep_view();
        let ghost old_misses = misses.deep_view();
        let req = user_list[i].as_str();
        match resolve_request(i, req, local_song, is_absolute_path) {
            Ok(h) => hits.push(h),
            Err(m) => misses.push(m),
        }
        i = i + 1;
        proof {
            let t = l.take(i as int);
            assert(t.drop_last() =~= l.take(i as int - 1));
            assert(t.last() == l[i as int - 1]);
            if is_hit_at(l[i as int - 1]@, cat) {
                assert(hits.deep_view() =~= old_hits.push(
                    hit_text(cat[best_idx(l[i as int - 1]@, cat)], is_absolute_path),
                ));
                assert(misses.deep_view() == old_misses);
            } else {
                assert(misses.deep_view() =~= old_misses.push(
                    miss_text_at(i as int - 1, l[i as int - 1]@, cat),
                ));
                assert(hits.deep_view() == old_hits);
            }
            assert(hits.deep_view() == hits_of(t, cat, is_absolute_path));
            assert(misses.deep_view() == misses_of(t, cat, 0));
        }
    }
    proof {
        assert(l.take(n as int) =~= l);
        lemma_hits_misses_count(l, cat, is_absolute_path, 0);
    }
    Ok((hits, misses))
}

/// Resolves one contiguous chunk of the requested-name list. `start_idx`
/// is the original index of the chunk's first name; the slot sequence has
/// exactly one slot per name of the chunk, and the miss records carry
/// original indices.
pub fn resolve_chunk(
    chunk: &Vec<String>,
    start_idx: usize,
    local_song: &Vec<Song>,
    is_absolute_path: bool,
) -> (r: (Vec<Option<String>>, Vec<String>))
    requires
        local_song@.len() > 0,
        start_idx + chunk@.len() <= usize::MAX,
    ensures
        r.0.deep_view() == slots_of(chunk@, local_song@, is_absolute_path),
        r.1.deep_view() == misses_of(chunk@, local_song@, start_idx as int),
{
    let ghost l = chunk@;
    let ghost cat = local_song@;
    let mut slots: Vec<Option<String>> = Vec::new();
    let mut misses: Vec<String> = Vec::new();
    let n = chunk.len();
    let mut j: usize = 0;
    proof {
        assert(l.take(0) =~= Seq::<String>::empty());
        assert(slots.deep_view() =~= slots_of(l.take(0), cat, is_absolute_path));
        assert(misses.deep_view() =~= misses_of(l.take(0), cat, start_idx as int));
    }
    while j < n
        invariant
            j <= n,
            n == l.len(),
            l == chunk@,
            cat == local_song@,
            cat.len() > 0,
            start_idx + n <= usize::MAX,
            slots.deep_view() == slots_of(l.take(j as int), cat, is_absolute_path),
            misses.deep_view() == misses_of(l.take(j as int), cat, start_idx as int),
        decreases n - j,
    {
        let ghost old_slots = slots.deep_view();
        let ghost old_misses = misses.deep_view();
        let idx = start_idx + j;
        let req = chunk[j].as_str();
        match resolve_request(idx, req, local_song, is_absolute_path) {
            Ok(h) => {
                proof {
                    assert(resolved_slot(l[j as int]@, cat, is_absolute_path) == Some(h@));
                }
                slots.push(Some(h));
            },
            Err(m) => {
                proof {
                    assert(resolved_slot(l[j as int]@, cat, is_absolute_path) is None);
                }
                slots.push(None);
                misses.push(m);
            },
        }
        j = j + 1;
        proof {
            let t = l.take(j as int);
            assert(t.drop_last() =~= l.take(j as int - 1));
            assert(t.last() == l[j as int - 1]);
            if is_hit_at(l[j as int - 1]@, cat) {
                assert(misses.deep_view() == old_misses);
            } else {
                assert(misses.deep_view() =~= old_misses.push(
                    miss_text_at(start_idx + j as int - 1, l[j as int - 1]@, cat),
                ));
            }
            assert(slots.deep_view() =~= old_slots.push(
                resolved_slot(l[j as int - 1]@, cat, is_absolute_path),
            ));
            assert(slots.deep_view() =~= slots_of(t, cat, is_absolute_path));
            assert(misses.deep_view() == misses_of(t, cat, start_idx as int));
        }
    }
    proof {
        assert(l.take(n as int) =~= l);
    }
    (slots, misses)
}

/// Reads the resolved hits out of a slot sequence, in slot order.
pub fn collect_hits(slots: &Vec<Option<String>>) -> (r: Vec<String>)
    ensures
        r.deep_view() == hits_from_slots(slots.deep_view()),
{
    let ghost s = slots.deep_view();
    let mut hits: Vec<String> = Vec::new();
    let n = slots.len();
    let mut j: usize = 0;
    proof {
        assert(s.take(0) =~= Seq::<Option<Seq<char>>>::empty());
        assert(hits.deep_view() =~= hits_from_slots(s.take(0)));
    }
    while j < n
        invariant
            j <= n,
            n == s.len(),
            s == slots.deep_view(),
            hits.deep_view() == hits_from_slots(s.take(j as int)),
        decreases n - j,
    {
        let ghost old_hits = hits.deep_view();
        match &slots[j] {
            Some(h) => {
                hits.push(h.clone());
                proof {
                    assert(hits.deep_view() =~= old_hits.push(s[j as int]->Some_0));
                }
            },
            None => {},
        }
        j = j + 1;
        proof {
            let t = s.take(j as int);
            assert(t.drop_last() =~= s.take(j as int - 1));
            assert(t.last() == s[j as int - 1]);
            assert(hits.deep_view() == hits_from_slots(t));
        }
    }
    proof {
        assert(s.take(n as int) =~= s);
    }
    hits
}

/// Joins per-chunk outputs back together in chunk order: the hits read
/// from the concatenated slots, and the concatenated miss records.
pub fn merge_parts(slot_parts: &Vec<Vec<Option<String>>>, miss_parts: &Vec<Vec<String>>) -> (r: (
    Vec<String>,
    Vec<String>,
))
    ensures
        r.0.deep_view() == hits_from_slots(concat_all(slot_parts.deep_view())),
        r.1.deep_view() == concat_all(miss_parts.deep_view()),
{
    let ghost sp = slot_parts.deep_view();
    let ghost mp = miss_parts.deep_view();
    let mut all_slots: Vec<Option<String>> = Vec::new();
    let mut p: usize = 0;
    proof {
        assert(sp.take(0) =~= Seq::<Seq<Option<Seq<char>>>>::empty());
        assert(all_slots.deep_view() =~= concat_all(sp.take(0)));
    }
    while p < slot_parts.len()
        invariant
            p <= sp.len(),
            sp == slot_parts.deep_view(),
            sp.len() == slot_parts@.len(),
            all_slots.deep_view() == concat_all(sp.take(p as int)),
        decreases sp.len() - p,
    {
        let ghost before = all_slots.deep_view();
        let part = &slot_parts[p];
        let mut j: usize = 0;
        while j < part.len()
            invariant
                j <= part@.len(),
                part == &slot_parts[p as int],
                p < sp.len(),
                sp == slot_parts.deep_view(),
                sp.len() == slot_parts@.len(),
                all_slots.deep_view() == before + part.deep_view().take(j as int),
            decreases part@.len() - j,
        {
            let ghost old_all = all_slots.deep_view();
            match &part[j] {
                Some(h) => all_slots.push(Some(h.clone())),
                None => all_slots.push(None),
            }
            j = j + 1;
            proof {
                assert(all_slots.deep_view() =~= old_all.push(part.deep_view()[j as int - 1]));
                assert(all_slots.deep_view() =~= before + part.deep_view().take(j as int));
            }
        }
        p = p + 1;
        proof {
            let t = sp.take(p as int);
            assert(t.drop_last() =~= sp.take(p as int - 1));
            assert(t.last() == sp[p as int - 1]);
            assert(part.deep_view().take(part@.len() as int) =~= sp[p as int - 1]);
            assert(all_slots.deep_view() == concat_all(t));
        }
    }
    proof {
        assert(sp.take(sp.len() as int) =~= sp);
    }
    let hits = collect_hits(&all_slots);
    let mut all_miss: Vec<String> = Vec::new();
    let mut q: usize = 0;
    proof {
        assert(mp.take(0) =~= Seq::<Seq<Seq<char>>>::empty());
        assert(all_miss.deep_view() =~= concat_all(mp.take(0)));
    }
    while q < miss_parts.len()
        invariant
            q <= mp.len(),
            mp == miss_parts.deep_view(),
            mp.len() == miss_parts@.len(),
            all_miss.deep_view() == concat_all(mp.take(q as int)),
        decreases mp.len() - q,
    {
        let ghost before = all_miss.deep_view();
        let part = &miss_parts[q];
        let mut j: usize = 0;
        while j < part.len()
            invariant
                j <= part@.len(),
                part == &miss_parts[q as int],
                q < mp.len(),
                mp == miss_parts.deep_view(),
                mp.len() == miss_parts@.len(),
                all_miss.deep_view() == before + part.deep_view().take(j as int),
            decreases part@.len() - j,
        {
            let ghost old_all = all_miss.deep_view();
            all_miss.push(part[j].clone());
            j = j + 1;
            proof {
                assert(all_miss.deep_view() =~= old_all.push(part.deep_view()[j as int - 1]));
                assert(all_miss.deep_view() =~= before + part.deep_view().take(j as int));
            }
        }
        q = q + 1;
        proof {
            let t = mp.take(q as int);
            assert(t.drop_last() =~= mp.take(q as int - 1));
            assert(t.last() == mp[q as int - 1]);
            assert(part.deep_view().take(part@.len() as int) =~= mp[q as int - 1]);
            assert(all_miss.deep_view() == concat_all(t));
        }
    }
    proof {
        assert(mp.take(mp.len() as int) =~= mp);
    }
    (hits, all_miss)
}

/// Partitions the requested-name list into contiguous chunks of at most
/// `ceil(n / workers)` names, resolves each chunk, and reassembles the
/// outputs in chunk order. The result is identical to the sequential
/// driver's: the same hit sequence, and the same miss records in the same
/// ascending original-index order.
pub fn list_to_m3u_fuzzy_parallel(
    user_list: &Vec<String>,
    local_song: &Vec<Song>,
    is_absolute_path: bool,
    workers: usize,
) -> (r: Result<(Vec<String>, Vec<String>), RunError>)
    requires
        workers >= 1,
    ensures
        (r is Ok) <==> (user_list@.len() == 0 || local_song@.len() > 0),
        r is Err ==> r->Err_0 == RunError::EmptyCatalog,
        r is Ok ==> r->Ok_0.0.deep_view() == hits_of(user_list@, local_song@, is_absolute_path),
        r is Ok ==> r->Ok_0.1.deep_view() == misses_of(user_list@, local_song@, 0),
        r is Ok ==> r->Ok_0.0@.len() + r->Ok_0.1@.len() == user_list@.len(),
{
    let ghost l = user_list@;
    let ghost cat = local_song@;
    let n = user_list.len();
    if n == 0 || local_song.len() == 0 {
        if n == 0 {
            let hits: Vec<String> = Vec::new();
            let misses: Vec<String> = Vec::new();
            proof {
                assert(hits.deep_view() =~= hits_of(l, cat, is_absolute_path));
                assert(misses.deep_view() =~= misses_of(l, cat, 0));
            }
            return Ok((hits, misses));
        }
        return Err(RunError::EmptyCatalog);
    }
    proof {
        vstd::arithmetic::div_mod::lemma_div_basics_5((n - 1) as int, workers as int);
    }
    let chunk_size = (n - 1) / workers + 1;
    let mut slots: Vec<Option<String>> = Vec::new();
    let mut misses: Vec<String> = Vec::new();
    let mut pos: usize = 0;
    proof {
        assert(l.take(0) =~= Seq::<String>::empty());
        assert(slots.deep_view() =~= slots_of(l.take(0), cat, is_absolute_path));
        assert(misses.deep_view() =~= misses_of(l.take(0), cat, 0));
    }
    while pos < n
        invariant
            pos <= n,
            n == l.len(),
            l == user_list@,
            cat == local_song@,
            cat.len() > 0,
            chunk_size >= 1,
            slots.deep_view() == slots_of(l.take(pos as int), cat, is_absolute_path),
            misses.deep_view() == misses_of(l.take(pos as int), cat, 0),
        decreases n - pos,
    {
        let ghost old_slots = slots.deep_view();
        let ghost old_misses = misses.deep_view();
        let end = if n - pos < chunk_size {
            n
        } else {
            pos + chunk_size
        };
        let mut chunk: Vec<String> = Vec::new();
        let mut j: usize = pos;
        proof {
            assert(chunk@ =~= l.subrange(pos as int, pos as int));
        }
        while j < end
            invariant
                pos <= j <= end <= n,
                n == l.len(),
                l == user_list@,
                chunk@ == l.subrange(pos as int, j as int),
            decreases end - j,
        {
            chunk.push(user_list[j].clone());
            j = j + 1;
            proof {
                assert(chunk@ =~= l.subrange(pos as int, j as int));
            }
        }
        let (mut cs, mut cm) = resolve_chunk(&chunk, pos, local_song, is_absolute_path);
        slots.append(&mut cs);
        misses.append(&mut cm);
        proof {
            let mid = l.subrange(pos as int, end as int);
            assert(l.take(end as int) =~= l.take(pos as int) + mid);
            lemma_misses_of_concat(l.take(pos as int), mid, cat, 0);
            assert(chunk@ == mid);
            assert(slots.deep_view() =~= old_slots + slots_of(mid, cat, is_absolute_path));
            assert(slots.deep_view() =~= slots_of(l.take(end as int), cat, is_absolute_path));
            assert(misses.deep_view() =~= old_misses + misses_of(mid, cat, pos as int));
            assert(misses.deep_view() == misses_of(l.take(end as int), cat, 0));
        }
        pos = end;
    }
    proof {
        assert(l.take(n as int) =~= l);
        lemma_hits_from_slots(l, cat, is_absolute_path);
        lemma_hits_misses_count(l, cat, is_absolute_path, 0);
    }
    let hits = collect_hits(&slots);
    Ok((hits, misses))
}

} // verus!

