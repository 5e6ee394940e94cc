//! The emitted files read back: the form in every emitted file has balanced
//! parentheses and reads back as exactly that form, whatever the names in
//! the schema hold.

use vstd::prelude::*;

use crate::balance::{balanced, lemma_render_balanced};
use crate::reader::{lemma_render_reads_back, read_form};
use crate::schema::Block;
use crate::sexpr::render_form;
use crate::{aggregator_form, resource_form};

verus! {

/// The form in a resource's file is balanced and reads back as that form.
pub proof fn lemma_resource_form_reads_back(type_id: Seq<char>, block: Block)
    ensures
        balanced(render_form(resource_form(type_id, block), 0)),
        read_form(render_form(resource_form(type_id, block), 0)) == Some(
            (resource_form(type_id, block), render_form(resource_form(type_id, block), 0).len()),
        ),
{
    let f = resource_form(type_id, block);
    lemma_render_balanced(f, 0);
    lemma_render_reads_back(f, 0, Seq::<char>::empty());
    assert(render_form(f, 0) + Seq::<char>::empty() =~= render_form(f, 0));
}

/// The form in a provider's `_index.tlisp` is balanced and reads back as
/// that form.
pub proof fn lemma_aggregator_form_reads_back(provider: Seq<char>, resources: Seq<String>)
    ensures
        balanced(render_form(aggregator_form(provider, resources), 0)),
        read_form(render_form(aggregator_form(provider, resources), 0)) == Some(
            (aggregator_form(provider, resources), render_form(aggregator_form(provider, resources), 0).len()),
        ),
{
    let f = aggregator_form(provider, resources);
    lemma_render_balanced(f, 0);
    lemma_render_reads_back(f, 0, Seq::<char>::empty());
    assert(render_form(f, 0) + Seq::<char>::empty() =~= render_form(f, 0));
}

} // verus!
