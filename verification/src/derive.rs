//! What the `Serializable` derive reads from a type definition: the fields
//! that it serializes, in order.
use vstd::prelude::*;

verus! {

/// The shape of a type definition, as the derive sees it: for a struct,
/// whether each of its fields (in order) has a name.
pub enum DeriveShape {
    Struct(Vec<bool>),
    Enum,
    Union,
}

/// Why the derive refuses a type definition.
#[derive(Clone, Copy, Debug, PartialEq, Eq, Structural)]
pub enum DeriveError {
    /// For now the derive is not available for enums.
    EnumsUnsupported,
    /// The derive is not available for unions.
    UnionsUnsupported,
}

/// The positions of the named fields among `named`, in order.
pub open spec fn named_positions(named: Seq<bool>) -> Seq<usize>
    decreases named.len(),
{
    if named.len() == 0 {
        Seq::empty()
    } else if named.last() {
        named_positions(named.drop_last()).push((named.len() - 1) as usize)
    } else {
        named_positions(named.drop_last())
    }
}

/// Law: the named fields are taken in declaration order, each once, and none
/// is left out: the positions are strictly increasing, and a position `i` is
/// among them exactly when field `i` exists and has a name.
pub proof fn lemma_named_positions(named: Seq<bool>)
    requires
        named.len() <= usize::MAX,
    ensures
        forall|a: int, b: int|
            0 <= a < b < named_positions(named).len() ==> named_positions(named)[a]
                < named_positions(named)[b],
        forall|a: int|
            0 <= a < named_positions(named).len() ==> named_positions(named)[a] < named.len()
                && named[named_positions(named)[a] as int],
        forall|i: int|
            0 <= i < named.len() && named[i] ==> named_positions(named).contains(i as usize),
    decreases named.len(),
{
    if named.len() > 0 {
        let init = named.drop_last();
        lemma_named_positions(init);
        let p = named_positions(init);
        let q = named_positions(named);
        if named.last() {
            assert(q == p.push((named.len() - 1) as usize));
            assert(q.last() == (named.len() - 1) as usize);
            assert forall|a: int, b: int| 0 <= a < b < q.len() implies q[a] < q[b] by {
                if b < p.len() {
                    assert(q[a] == p[a] && q[b] == p[b]);
                } else {
                    assert(q[a] == p[a]);
                    assert(p[a] < init.len());
                }
            }
        } else {
            assert(q == p);
        }
        assert forall|i: int| 0 <= i < named.len() && named[i] implies named_positions(
            named,
        ).contains(i as usize) by {
            if i < init.len() {
                assert(init[i] == named[i]);
                let a = choose|a: int| 0 <= a < p.len() && p[a] == i as usize;
                if named.last() {
                    assert(named_positions(named)[a] == i as usize);
                }
            } else {
                assert(named_positions(named).last() == i as usize);
            }
        }
        assert forall|a: int|
            0 <= a < named_positions(named).len() implies named_positions(named)[a] < named.len()
            && named[named_positions(named)[a] as int] by {
            if a < p.len() {
                assert(q[a] == p[a]);
                assert(named[p[a] as int] == init[p[a] as int]);
            } else {
                assert(named.last());
                assert(q[a] == (named.len() - 1) as usize);
            }
        }
    }
}

/// The fields that the derived `serialize` goes through, one after the
/// other: the named fields of a struct; enums and unions are refused.
pub fn serialized_fields(shape: &DeriveShape) -> (r: Result<Vec<usize>, DeriveError>)
    ensures
        match shape {
            DeriveShape::Struct(named) => r matches Ok(fields) && fields@ == named_positions(named@)
                && (forall|a: int, b: int|
                0 <= a < b < fields@.len() ==> fields@[a] < fields@[b]) && (forall|i: int|
                0 <= i < named@.len() ==> (named@[i] <==> fields@.contains(i as usize))),
            DeriveShape::Enum => r == Err::<Vec<usize>, DeriveError>(DeriveError::EnumsUnsupported),
            DeriveShape::Union => r == Err::<Vec<usize>, DeriveError>(DeriveError::UnionsUnsupported),
        },
{
    match shape {
        DeriveShape::Struct(named) => {
            let mut fields: Vec<usize> = Vec::new();
            let mut i: usize = 0;
            assert(named@.take(0) =~= Seq::<bool>::empty());
            while i < named.len()
                invariant
                    i <= named@.len(),
                    fields@ == named_positions(named@.take(i as int)),
                decreases named@.len() - i,
            {
                assert(named@.take(i + 1).drop_last() =~= named@.take(i as int));
                if named[i] {
                    fields.push(i);
                }
                i = i + 1;
            }
            assert(named@.take(i as int) =~= named@);
            proof {
                lemma_named_positions(named@);
                assert forall|j: int| 0 <= j < named@.len() implies (named@[j] <==> fields@.contains(
                    j as usize,
                )) by {
                    if fields@.contains(j as usize) {
                        let a = choose|a: int| 0 <= a < fields@.len() && fields@[a] == j as usize;
                        assert(named@[fields@[a] as int]);
                    }
                }
            }
            Ok(fields)
        },
        DeriveShape::Enum => Err(DeriveError::EnumsUnsupported),
        DeriveShape::Union => Err(DeriveError::UnionsUnsupported),
    }
}

} // verus!
