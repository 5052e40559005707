//! Recipient completion: when it is offered, how a suggestion reads, and what
//! accepting one does to the field.
use vstd::prelude::*;
use crate::model::RecipientCandidate;
use crate::text::{decimal, decimal_of, has_prefix, lemma_decimal_differs, str_opt, texts};

verus! {

/// How much of the recipient being typed must exist before completion offers
/// anything: four characters is where a prefix starts to identify somebody.
pub const MIN_COMPLETION_PREFIX: usize = 4;

/// What a suggestion reads.
pub open spec fn label_of(candidate: RecipientCandidate) -> Seq<char> {
    match candidate {
        RecipientCandidate::Contact(address) => address@,
        RecipientCandidate::Group { name, members } => name@ + " ("@ + decimal(members@.len())
            + " people)"@,
    }
}

/// The completion row's label: an address for a contact, or the name and size
/// for a group -- distinguishable from a contact at a glance, since accepting
/// one inserts several addresses rather than one.
pub fn candidate_label(candidate: &RecipientCandidate) -> (out: String)
    ensures
        out@ == label_of(*candidate),
{
    match candidate {
        RecipientCandidate::Contact(address) => address.clone(),
        RecipientCandidate::Group { name, members } => {
            let mut out = name.clone();
            out.append(" (");
            out.append(decimal_of(members.len() as u64).as_str());
            out.append(" people)");
            out
        },
    }
}

/// Each of `addresses` followed by a comma and a space.
pub open spec fn listed(addresses: Seq<Seq<char>>) -> Seq<char>
    decreases addresses.len(),
{
    if addresses.len() == 0 {
        Seq::empty()
    } else {
        listed(addresses.drop_last()) + addresses.last() + ", "@
    }
}

/// What accepting a suggestion inserts.
pub open spec fn inserted(candidate: RecipientCandidate) -> Seq<char> {
    match candidate {
        RecipientCandidate::Contact(address) => address@ + ", "@,
        RecipientCandidate::Group { members, .. } => listed(texts(members@)),
    }
}

/// The field once `candidate` is accepted: every address typed before it
/// untouched, and a `, ` left for the next one. `before` is the part of the
/// field ahead of the address being typed.
///
/// A contact inserts one address; a group inserts every member as its own
/// address, exactly as if they had been typed individually.
pub fn accepted(before: &str, candidate: &RecipientCandidate) -> (out: String)
    ensures
        out@ == before@ + inserted(*candidate),
{
    let mut out = before.to_owned();
    match candidate {
        RecipientCandidate::Contact(address) => {
            out.append(address.as_str());
            out.append(", ");
            assert(out@ =~= before@ + inserted(*candidate));
        },
        RecipientCandidate::Group { members, .. } => {
            let mut i: usize = 0;
            assert(out@ =~= before@ + listed(texts(members@).take(0)));
            while i < members.len()
                invariant
                    i <= members@.len(),
                    out@ == before@ + listed(texts(members@).take(i as int)),
                decreases members@.len() - i,
            {
                proof {
                    let now = texts(members@).take(i + 1);
                    assert(now.drop_last() =~= texts(members@).take(i as int));
                    assert(now.last() == members@[i as int]@);
                }
                out.append(members[i].as_str());
                out.append(", ");
                i += 1;
                assert(out@ =~= before@ + listed(texts(members@).take(i as int)));
            }
            assert(texts(members@).take(members@.len() as int) =~= texts(members@));
        },
    }
    out
}

/// What is being typed, when there is enough of it to look up.
pub fn prefix<'a>(token: &'a str) -> (out: Option<&'a str>)
    ensures
        str_opt(out) == (if token@.len() >= MIN_COMPLETION_PREFIX {
            Some(token@)
        } else {
            None
        }),
{
    if token.unicode_len() >= MIN_COMPLETION_PREFIX {
        Some(token)
    } else {
        None
    }
}

/// Accepting a group is accepting each of its members in turn.
pub proof fn lemma_group_is_its_members(members: Seq<Seq<char>>, last: Seq<char>)
    ensures
        listed(members.push(last)) == listed(members) + last + ", "@,
{
    assert(members.push(last).drop_last() =~= members);
}

/// A group of one inserts what that contact does, nobody inserts nothing, and
/// two lots of members insert the one after the other.
pub proof fn lemma_members_one_by_one(
    contact: RecipientCandidate,
    group: RecipientCandidate,
    first: Seq<Seq<char>>,
    second: Seq<Seq<char>>,
)
    ensures
        contact is Contact && group is Group && group->members@.len() == 1 && group->members@[0]@
            == contact->Contact_0@ ==> inserted(group) == inserted(contact),
        group is Group && group->members@.len() == 0 ==> inserted(group).len() == 0,
        listed(first + second) == listed(first) + listed(second),
    decreases second.len(),
{
    if group is Group && group->members@.len() == 1 {
        let all = texts(group->members@);
        assert(all.drop_last() =~= Seq::<Seq<char>>::empty());
        assert(listed(all.drop_last()) =~= Seq::<char>::empty());
        assert(all.last() == group->members@[0]@);
        assert(inserted(group) =~= group->members@[0]@ + ", "@);
    }
    if second.len() == 0 {
        assert(first + second =~= first);
        assert(listed(first) + listed(second) =~= listed(first));
    } else {
        lemma_members_one_by_one(contact, group, first, second.drop_last());
        assert((first + second).drop_last() =~= first + second.drop_last());
        assert((first + second).last() == second.last());
        assert(listed(first + second) =~= listed(first) + listed(second));
    }
}

/// A contact reads as their address; a group as its name and how many are in
/// it, so that two groups of one name and different sizes read differently.
pub proof fn lemma_what_a_suggestion_reads(a: RecipientCandidate, b: RecipientCandidate)
    requires
        a is Group && b is Group,
        a->name@ == b->name@,
    ensures
        label_of(a) == label_of(b) ==> a->members@.len() == b->members@.len(),
        has_prefix(label_of(a), a->name@),
        label_of(a).len() > a->name@.len(),
{
    reveal_strlit(" (");
    reveal_strlit(" people)");
    let one = label_of(a);
    let two = label_of(b);
    let start = a->name@.len() as int;
    assert(one.subrange(0, start) =~= a->name@);
    if one == two {
        assert(one.subrange(start + 2, one.len() - 8) =~= decimal(a->members@.len()));
        assert(two.subrange(start + 2, two.len() - 8) =~= decimal(b->members@.len()));
        lemma_decimal_differs(a->members@.len(), b->members@.len());
    }
}

} // verus!
