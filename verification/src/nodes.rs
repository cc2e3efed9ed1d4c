//! Building the internal model of the taken-in notes.
use vstd::prelude::*;
use crate::fragment::{build_fragments, tree_of};
use crate::model::{derive_title, title_of, Node};
use crate::notes::ingest::NoteData;
use crate::paths::{
    entry_index_of, entry_index_path, parent_dir, parent_dir_exec, resolve_conflict,
    resolve_conflict_spec, strings_set,
};

verus! {

/// Entry pages of notes with these sources, in order, each renamed with
/// `-N` when an earlier note took its path.
pub open spec fn entries_of(sources: Seq<Seq<char>>, used: Set<Seq<char>>) -> Seq<Seq<char>>
    decreases sources.len(),
{
    if sources.len() == 0 {
        seq![]
    } else {
        let e = resolve_conflict_spec(entry_index_of(sources[0]), used);
        seq![e] + entries_of(sources.drop_first(), used.insert(e))
    }
}

pub open spec fn sources_of(notes: Seq<NoteData>) -> Seq<Seq<char>> {
    notes.map_values(|n: NoteData| n.source_file@)
}

/// Build the internal model of the taken-in notes: each note gets a unique
/// entry page `fragments/<rel>/index.md` and its fragment tree.
pub fn build_nodes(notes: Vec<NoteData>) -> (out: Vec<Node>)
    ensures
        out@.len() == notes@.len(),
        forall|i: int| 0 <= i < out@.len() ==> {
            let n = #[trigger] out@[i];
            &&& n.output_path@ == entries_of(sources_of(notes@), Set::empty())[i]
            &&& n.entry_dir@ == parent_dir(n.output_path@)
            &&& n.title@ == title_of(notes@[i])
            &&& n.note == notes@[i]
            &&& n.fragments@ == tree_of(notes@[i].body@, notes@[i].frontmatter.fragment)
            &&& n.related@.len() == 0
            &&& n.backlinks@.len() == 0
        },
{
    let ghost all = notes@;
    let ghost entries = entries_of(sources_of(all), Set::empty());
    let total = notes.len();
    let mut rest = notes;
    let mut used: Vec<String> = Vec::new();
    let mut out: Vec<Node> = Vec::new();
    assert(sources_of(all).skip(0) =~= sources_of(all));
    assert(strings_set(used@) =~= Set::<Seq<char>>::empty());
    while rest.len() > 0
        invariant
            out@.len() + rest@.len() == all.len(),
            all.len() == total,
            rest@ == all.skip(out@.len() as int),
            used@.len() == out@.len(),
            entries == entries_of(sources_of(all), Set::empty()),
            Seq::new(out@.len(), |j: int| entries[j]) + entries_of(sources_of(all).skip(out@.len() as int), strings_set(used@)) == entries,
            forall|i: int| 0 <= i < out@.len() ==> {
                let n = #[trigger] out@[i];
                &&& n.output_path@ == entries[i]
                &&& n.entry_dir@ == parent_dir(n.output_path@)
                &&& n.title@ == title_of(all[i])
                &&& n.note == all[i]
                &&& n.fragments@ == tree_of(all[i].body@, all[i].frontmatter.fragment)
                &&& n.related@.len() == 0
                &&& n.backlinks@.len() == 0
            },
        decreases rest@.len(),
    {
        let k = out.len();
        let data = rest.remove(0);
        assert(data == all[k as int]);
        assert(rest@ =~= all.skip(k + 1));
        let ghost uset = strings_set(used@);
        let ghost old_used = used@;
        let idx = entry_index_path(data.source_file.as_str());
        let entry = resolve_conflict(idx, &mut used);
        proof {
            let srest = sources_of(all).skip(k as int);
            assert(srest[0] == data.source_file@);
            assert(srest.drop_first() =~= sources_of(all).skip(k + 1));
            old_used.map_values(|s: String| s@).lemma_push_to_set_commute(entry@);
            assert(used@.map_values(|s: String| s@) =~= old_used.map_values(|s: String| s@).push(entry@));
            assert(strings_set(used@) =~= uset.insert(entry@));
            assert(entries_of(srest, uset) =~= seq![entry@] + entries_of(sources_of(all).skip(k + 1), strings_set(used@)));
            assert(entries[k as int] == entry@) by {
                assert(entries[k as int] == (Seq::new(k as nat, |j: int| entries[j]) + entries_of(srest, uset))[k as int]);
            }
            assert(Seq::new((k + 1) as nat, |j: int| entries[j]) + entries_of(sources_of(all).skip(k + 1), strings_set(used@)) =~= entries);
        }
        let dir = parent_dir_exec(entry.as_str());
        let title = derive_title(&data);
        let fragments = build_fragments(&data);
        out.push(Node {
            output_path: entry,
            entry_dir: dir,
            title,
            note: data,
            fragments,
            related: Vec::new(),
            backlinks: Vec::new(),
        });
    }
    out
}

} // verus!
