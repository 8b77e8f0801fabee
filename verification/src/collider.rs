use vstd::prelude::*;

verus! {

/// The decision of the collider hookup for a chunk whose geometry just
/// arrived: a mesh with no vertices or no indices gets no collision body
/// at all; any other mesh has its flat index list regrouped into the
/// triples a triangle-mesh collider is built from, a trailing partial
/// triple dropped.
pub fn collider_triangles(vertex_count: usize, indices: &Vec<u32>) -> (r: Option<Vec<[u32; 3]>>)
    ensures
        r is None <==> vertex_count == 0 || indices@.len() == 0,
        r matches Some(triangles) ==> triangles@.len() == indices@.len() / 3 && (forall|i: int|
            0 <= i < triangles@.len() ==> (#[trigger] triangles@[i])@ == seq![
                indices@[3 * i],
                indices@[3 * i + 1],
                indices@[3 * i + 2],
            ]),
{
    if vertex_count == 0 || indices.len() == 0 {
        return None;
    }
    let mut triangles: Vec<[u32; 3]> = Vec::new();
    let mut j: usize = 0;
    while indices.len() - j >= 3
        invariant
            0 <= j <= indices@.len(),
            j % 3 == 0,
            triangles@.len() == j / 3,
            forall|i: int|
                0 <= i < triangles@.len() ==> (#[trigger] triangles@[i])@ == seq![
                    indices@[3 * i],
                    indices@[3 * i + 1],
                    indices@[3 * i + 2],
                ],
        decreases indices@.len() - j,
    {
        let triple = [indices[j], indices[j + 1], indices[j + 2]];
        triangles.push(triple);
        proof {
            assert(triangles@.last()@ =~= seq![
                indices@[3 * ((j / 3) as int)],
                indices@[3 * ((j / 3) as int) + 1],
                indices@[3 * ((j / 3) as int) + 2],
            ]);
        }
        j = j + 3;
    }
    proof {
        vstd::arithmetic::div_mod::lemma_fundamental_div_mod(indices@.len() as int, 3);
        vstd::arithmetic::div_mod::lemma_fundamental_div_mod(j as int, 3);
    }
    Some(triangles)
}

} // verus!
