//! A note as a tree of models.

use crate::json::{json_empty, json_model, Json};
use serde_json::Value;
use vstd::prelude::*;

verus! {

/// One model of a note: a page, a layer, a unit.
#[derive(Debug)]
pub struct GenericModel {
    pub id: String,
    pub parent_id: Option<String>,
    pub model_type: String,
    pub props: Value,
    pub children: Vec<String>,
}

/// The models of a note, each under an id of its own.
#[derive(Debug)]
pub struct GenericTree {
    models: Vec<GenericModel>,
}

/// No id occurs twice.
pub open spec fn distinct_ids(models: Seq<GenericModel>) -> bool {
    forall|i: int, j: int|
        0 <= i < j < models.len() ==> (#[trigger] models[i]).id@ != (#[trigger] models[j]).id@
}

impl View for GenericTree {
    type V = Seq<GenericModel>;

    closed spec fn view(&self) -> Seq<GenericModel> {
        self.models@
    }
}

impl GenericTree {
    #[verifier::type_invariant]
    spec fn distinct(self) -> bool {
        distinct_ids(self.models@)
    }

    /// A tree that holds its root alone.
    pub fn new(root_id: &str, root_type: &str) -> (r: GenericTree)
        ensures
            r@.len() == 1,
            r@[0].id@ == root_id@,
            r@[0].model_type@ == root_type@,
            r@[0].parent_id is None,
            r@[0].children@.len() == 0,
            json_model(r@[0].props) == Json::Object(Map::empty()),
    {
        let mut models: Vec<GenericModel> = Vec::new();
        models.push(
            GenericModel {
                id: root_id.to_owned(),
                parent_id: None,
                model_type: root_type.to_owned(),
                props: json_empty(),
                children: Vec::new(),
            },
        );
        GenericTree { models }
    }

    /// The models, each id once.
    pub fn models(&self) -> (r: &Vec<GenericModel>)
        ensures
            r@ == self@,
            distinct_ids(r@),
    {
        proof {
            use_type_invariant(self);
        }
        &self.models
    }

    /// Puts a model under its id, in place of the one that was there.
    pub fn insert(&mut self, model: GenericModel)
        ensures
            forall|i: int|
                0 <= i < old(self)@.len() && (#[trigger] old(self)@[i]).id@ == model.id@
                    ==> final(self)@ == old(self)@.update(i, model),
            (forall|i: int| 0 <= i < old(self)@.len() ==> (#[trigger] old(self)@[i]).id@ != model.id@)
                ==> final(self)@ == old(self)@.push(model),
    {
        proof {
            use_type_invariant(&*self);
        }
        let mut models: Vec<GenericModel> = Vec::new();
        std::mem::swap(&mut self.models, &mut models);
        let mut i: usize = 0;
        while i < models.len() && !(models[i].id == model.id)
            invariant
                i <= models.len(),
                forall|j: int| 0 <= j < i ==> (#[trigger] models@[j]).id@ != model.id@,
            decreases models.len() - i,
        {
            i = i + 1;
        }
        if i < models.len() {
            models.set(i, model);
        } else {
            models.push(model);
        }
        self.models = models;
    }
}

} // verus!
