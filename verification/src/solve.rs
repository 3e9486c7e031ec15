//! One unit of work: all solutions that one query sequence takes part in.

use vstd::prelude::*;
use crate::index::TextIndex;
use crate::modes::Mode;
use crate::search::{pattern_fits, query_of, search_fits};
use crate::structs::run_config::{Config, Maps};
use crate::structs::solutions::{Candidate, CandidateSet, Solution, SolutionSet};
use crate::verification::{genuine_overlap, verified_solutions, verifiable, verify_all};

verus! {

/// What a run needs before it can search for sequence `id_a`: settings and
/// corpus are well-formed, the sequence exists, the index knows the
/// alphabet, and the sequence is short enough to search.
pub open spec fn solvable(
    config: Config,
    maps: Maps,
    id_a: int,
    index: TextIndex,
    mode: Mode,
) -> bool {
    &&& config.wf()
    &&& maps.wf()
    &&& index.wf()
    &&& 0 <= id_a < maps.indexes@.len()
    &&& forall|k: int|
        0 <= k < config.spec_alphabet().len() ==> index@.knows(
            #[trigger] config.spec_alphabet()[k],
        )
    &&& search_fits(maps.sequence(id_a).len() as int, config, mode)
}

/// The solutions that sequence `id_a` takes part in as the query: the
/// candidates of its search, verified.
pub open spec fn solutions_of(
    config: Config,
    maps: Maps,
    id_a: int,
    index: TextIndex,
    mode: Mode,
) -> Set<Solution> {
    verified_solutions(
        id_a,
        query_of(maps.sequence(id_a), config, maps, id_a, mode).candidates(index@),
        config,
        maps,
    )
}

/// The index of a corpus for the alphabet of a configuration; nothing where
/// the text cannot be indexed.
pub fn build_index(maps: &Maps, config: &Config) -> (r: Option<TextIndex>)
    ensures
        r.is_some() <==> TextIndex::indexable(maps.text@, config.spec_alphabet()),
        r matches Some(index) ==> {
            &&& index.wf()
            &&& index@.symbols == config.spec_alphabet()
            &&& forall|k: int|
                0 <= k < config.spec_alphabet().len() ==> index@.knows(
                    #[trigger] config.spec_alphabet()[k],
                )
            &&& crate::index::is_suffix_array(maps.text@, index@.sa)
            &&& index@.bwt == crate::index::bwt_of(maps.text@, index@.sa)
        },
{
    let alphabet: Vec<u8> = config.alphabet();
    let built: Option<TextIndex> = TextIndex::build(&maps.text, &alphabet);
    proof {
        if built is Some {
            let index = built->0;
            assert forall|k: int| 0 <= k < config.spec_alphabet().len() implies index@.knows(
                #[trigger] config.spec_alphabet()[k],
            ) by {
                assert(index@.symbols.contains(config.spec_alphabet()[k]));
            }
        }
    }
    built
}

/// Searches and verifies for one query sequence.
#[inline]
pub fn solve_an_id(config: &Config, maps: &Maps, id_a: usize, index: &TextIndex, mode: &Mode) -> (r:
    SolutionSet)
    requires
        solvable(*config, *maps, id_a as int, *index, *mode),
    ensures
        r.wf(),
        r@ == solutions_of(*config, *maps, id_a as int, *index, *mode),
        (config.reversals ==> maps.companions_wf()) ==> forall|s: Solution|
            r@.contains(s) ==> genuine_overlap(s, *config, *maps),
{
    let candidates: CandidateSet = index.generate_candidates(
        maps.get_string(id_a),
        config,
        maps,
        id_a,
        mode,
    );
    proof {
        let q = query_of(maps.sequence(id_a as int), *config, *maps, id_a as int, *mode);
        assert forall|c: Candidate| candidates@.contains(c) implies verifiable(
            id_a as int,
            c,
            *config,
            *maps,
        ) by {
            assert(q.admits(c));
        }
    }
    verify_all(id_a, candidates, config, maps)
}

/// Searches and verifies for one query sequence where that is possible, and
/// returns nothing where it is not (see [`solvable`]).
pub fn try_solve_an_id(
    config: &Config,
    maps: &Maps,
    id_a: usize,
    index: &TextIndex,
    mode: &Mode,
) -> (r: Option<SolutionSet>)
    requires
        maps.wf(),
        index.wf(),
    ensures
        r.is_some() <==> solvable(*config, *maps, id_a as int, *index, *mode),
        r matches Some(solutions) ==> solutions.wf() && solutions@ == solutions_of(
            *config,
            *maps,
            id_a as int,
            *index,
            *mode,
        ),
        (config.reversals ==> maps.companions_wf()) ==> (r matches Some(solutions)
            ==> forall|s: Solution| solutions@.contains(s) ==> genuine_overlap(s, *config, *maps)),
{
    if config.check().is_err() {
        return None;
    }
    if id_a >= maps.num_ids() {
        return None;
    }
    let alphabet: Vec<u8> = config.alphabet();
    if !index.knows_all(&alphabet) {
        return None;
    }
    if !pattern_fits(maps.get_length(id_a), config, mode) {
        return None;
    }
    Some(solve_an_id(config, maps, id_a, index, mode))
}

} // verus!
