use vstd::prelude::*;

use crate::history::{bumped, entries_view, History};
use crate::markov::{move_counted, move_pairs, owned, strings_view};
use crate::session::{pushed, session_context, Session};

verus! {

/// Registers a directory change to `path` (`normalized` is the same path
/// with links and `.`/`..` resolved), made at time `now`: the move from the
/// session's current directory to `path` is recorded in the history's chain,
/// keyed on the session's earlier directories; `path` counts one visit more;
/// and `normalized` is pushed onto the session.
pub fn register_visit(history: &mut History, session: &mut Session, path: &str, normalized: &str, now: u64)
    requires
        old(history).wf(),
        old(session).paths().len() > 0 ==> old(history).chain.can_count(
            session_context(old(session).paths()),
            old(session).paths()[0],
            path@,
        ),
        old(history).visits_of(path@) < usize::MAX,
        old(session).wf(),
        old(session).paths().len() > 0 ==> old(session).moves().can_count(
            Seq::empty(),
            old(session).paths()[0],
            normalized@,
        ),
    ensures
        final(history).wf(),
        final(session).wf(),
        old(session).paths().len() > 0 ==> move_counted(
            old(history).chain,
            final(history).chain,
            session_context(old(session).paths()),
            old(session).paths()[0],
            path@,
        ),
        old(session).paths().len() > 0 ==> final(history).chain.pairs() == old(history).chain.pairs() + move_pairs(
            session_context(old(session).paths()),
            old(session).paths()[0],
            path@,
        ),
        old(session).paths().len() == 0 ==> final(history).chain == old(history).chain,
        entries_view(final(history).entries@) == bumped(entries_view(old(history).entries@), path@, now, true),
        final(session).paths() == pushed(old(session).paths(), normalized@, old(session).limit()),
        final(session).limit() == old(session).limit(),
        forall|k: Seq<Seq<char>>, t: Seq<char>|
            #[trigger] final(session).moves().count(k, t) == old(session).moves().count(k, t) + if old(
                session,
            ).paths().len() > 0 && old(session).paths()[0] != normalized@ && k == seq![old(session).paths()[0]]
                && t == normalized@ {
                1nat
            } else {
                0nat
            },
{
    match session.current() {
        Some(current) => {
            let context = session.context();
            let from = owned(current.as_str());
            history.chain.register(context.as_slice(), from.as_str(), path);
        },
        None => {},
    }
    history.record_visit_at(path, now);
    session.push(normalized);
}

/// Whether `register_visit(history, session, path, normalized, _)` can count
/// everything it counts: the visit of `path`, and the move from the current
/// directory in the history's chain and in the session's.
pub fn can_register_visit(history: &History, session: &Session, path: &str, normalized: &str) -> (r: bool)
    requires
        history.wf(),
        session.wf(),
    ensures
        r == (history.visits_of(path@) < usize::MAX && (session.paths().len() > 0 ==> history.chain.can_count(
            session_context(session.paths()),
            session.paths()[0],
            path@,
        ) && session.moves().can_count(Seq::empty(), session.paths()[0], normalized@))),
{
    if history.visit_count(path) == usize::MAX {
        return false;
    }
    let from = match session.current() {
        Some(current) => owned(current.as_str()),
        None => {
            return true;
        },
    };
    let context = session.context();
    let empty: Vec<String> = Vec::new();
    proof {
        assert(strings_view(empty@) =~= Seq::<Seq<char>>::empty());
    }
    history.chain.can_register(context.as_slice(), from.as_str(), path) && session.chain().can_register(
        empty.as_slice(),
        from.as_str(),
        normalized,
    )
}

} // verus!
