use vstd::prelude::*;

verus! {

/// Mathematical model of a [`Product`].
#[verifier::ext_equal]
pub struct ProductModel {
    pub product_id: Seq<char>,
    pub name: Seq<char>,
    pub brand: Seq<char>,
    pub description: Seq<char>,
    pub tags: Seq<Seq<char>>,
}

/// A catalog product record, as handed back by the product lookup
/// collaborator.
pub struct Product {
    pub product_id: String,
    pub name: String,
    pub brand: String,
    pub description: String,
    pub tags: Vec<String>,
}

impl View for Product {
    type V = ProductModel;

    open spec fn view(&self) -> ProductModel {
        ProductModel {
            product_id: self.product_id@,
            name: self.name@,
            brand: self.brand@,
            description: self.description@,
            tags: self.tags@.map_values(|t: String| t@),
        }
    }
}

impl Clone for Product {
    fn clone(&self) -> (res: Self)
        ensures
            res@ == self@,
    {
        let n = self.tags.len();
        let mut tags: Vec<String> = Vec::new();
        let mut i: usize = 0;
        while i < n
            invariant
                i <= n,
                n == self.tags@.len(),
                tags@.map_values(|t: String| t@) == self.tags@.map_values(|t: String| t@).take(
                    i as int,
                ),
            decreases n - i,
        {
            let ghost tv0 = tags@.map_values(|t: String| t@);
            proof {
                assert(self.tags@.map_values(|t: String| t@)[i as int] == self.tags@[i as int]@);
            }
            tags.push(self.tags[i].clone());
            proof {
                assert(tags@.map_values(|t: String| t@) =~= tv0.push(self.tags@[i as int]@));
                assert(self.tags@.map_values(|t: String| t@).take(i + 1) =~= self.tags@.map_values(
                    |t: String| t@,
                ).take(i as int).push(self.tags@[i as int]@));
            }
            i += 1;
        }
        proof {
            assert(self.tags@.map_values(|t: String| t@).take(n as int) =~= self.tags@.map_values(
                |t: String| t@,
            ));
        }
        Product {
            product_id: self.product_id.clone(),
            name: self.name.clone(),
            brand: self.brand.clone(),
            description: self.description.clone(),
            tags,
        }
    }
}

impl Product {
    /// A product record with the given identity and descriptive fields.
    pub fn new(
        product_id: String,
        name: String,
        brand: String,
        description: String,
        tags: Vec<String>,
    ) -> (r: Self)
        ensures
            r@.product_id == product_id@,
            r@.name == name@,
            r@.brand == brand@,
            r@.description == description@,
            r@.tags == tags@.map_values(|t: String| t@),
    {
        Product { product_id, name, brand, description, tags }
    }
}

} // verus!
