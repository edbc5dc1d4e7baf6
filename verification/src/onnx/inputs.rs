//! The inputs that an ONNX graph declares.
use ort::session::Session;
use ort::value::Outlet;
use vstd::prelude::*;

verus! {

/// Trusted: `ort::session::Session`, a loaded ONNX graph. Nothing is claimed of its inside.
#[verifier::external_type_specification]
#[verifier::external_body]
pub struct ExSession(Session);

/// Trusted: `ort::value::Outlet`, an input that a graph declares. Nothing is claimed of its
/// inside.
#[verifier::external_type_specification]
#[verifier::external_body]
pub struct ExOutlet(Outlet);

/// The inputs that a session's graph declares, in order.
pub uninterp spec fn session_inputs(session: Session) -> Seq<Outlet>;

/// The name of a declared input.
pub uninterp spec fn outlet_name(outlet: Outlet) -> Seq<char>;

/// The shape of a declared input, if the input is a tensor. A dimension that the graph does
/// not fix is negative.
pub uninterp spec fn outlet_shape(outlet: Outlet) -> Option<Seq<i64>>;

/// The type of a declared input, as text for messages.
pub uninterp spec fn outlet_type_text(outlet: Outlet) -> Seq<char>;

/// Trusted: `Session::inputs` hands out the list of declared inputs that the session holds.
pub assume_specification[ Session::inputs ](session: &Session) -> (r: &[Outlet])
    ensures
        r@ == session_inputs(*session),
;

/// Trusted: `Outlet::name` hands out the name that the outlet holds.
pub assume_specification[ Outlet::name ](outlet: &Outlet) -> (r: &str)
    ensures
        r@ == outlet_name(*outlet),
;

/// Trusted: `Outlet::dtype` and `ValueType::tensor_shape` hand out the shape that the outlet
/// holds, if its type is that of a tensor.
#[verifier::external_body]
fn shape_of(outlet: &Outlet) -> (r: Option<Vec<i64>>)
    ensures
        r is Some <==> outlet_shape(*outlet) is Some,
        r matches Some(dims) ==> outlet_shape(*outlet) == Some(dims@),
{
    outlet.dtype().tensor_shape().map(|shape| shape.to_vec())
}

/// Trusted: the debug text of the type that `Outlet::dtype` hands out.
#[verifier::external_body]
fn type_text_of(outlet: &Outlet) -> (r: String)
    ensures
        r@ == outlet_type_text(*outlet),
{
    format!("{:?}", outlet.dtype())
}

/// What is known of an input: its name, its shape if it is a tensor, and its type as text.
pub type InputView = (Seq<char>, Option<Seq<i64>>, Seq<char>);

/// What is known of an input that a graph declares.
pub struct ModelInput {
    pub name: String,
    /// The shape, if the input is a tensor. A dimension that the graph does not fix is negative.
    pub shape: Option<Vec<i64>>,
    /// The type as text for messages.
    pub type_text: String,
}

impl View for ModelInput {
    type V = InputView;

    open spec fn view(&self) -> InputView {
        (
            self.name@,
            match self.shape {
                Some(dims) => Some(dims@),
                None => None,
            },
            self.type_text@,
        )
    }
}

/// What is known of each input.
pub open spec fn input_views(inputs: Seq<ModelInput>) -> Seq<InputView> {
    inputs.map_values(|i: ModelInput| i@)
}

/// What is known of a declared input.
pub open spec fn described(outlet: Outlet) -> InputView {
    (outlet_name(outlet), outlet_shape(outlet), outlet_type_text(outlet))
}

/// What is known of the inputs of a session.
pub open spec fn described_inputs(session: Session) -> Seq<InputView> {
    session_inputs(session).map_values(|o: Outlet| described(o))
}

/// Describes declared inputs by plain values.
pub fn describe_outlets(outlets: &[Outlet]) -> (r: Vec<ModelInput>)
    ensures
        input_views(r@) == outlets@.map_values(|o: Outlet| described(o)),
{
    let mut out: Vec<ModelInput> = Vec::new();
    let ghost plain = |i: ModelInput| i@;
    let ghost all = outlets@.map_values(|o: Outlet| described(o));
    let mut k: usize = 0;
    assert(out@.map_values(plain) =~= all.take(0));
    while k < outlets.len()
        invariant
            k <= outlets@.len(),
            plain == (|i: ModelInput| i@),
            all == outlets@.map_values(|o: Outlet| described(o)),
            out@.map_values(plain) == all.take(k as int),
        decreases outlets@.len() - k,
    {
        let outlet = &outlets[k];
        let input = ModelInput {
            name: outlet.name().to_string(),
            shape: shape_of(outlet),
            type_text: type_text_of(outlet),
        };
        let ghost before = out@.map_values(plain);
        assert(input@ == all[k as int]);
        out.push(input);
        assert(out@.map_values(plain) =~= before.push(all[k as int]));
        k += 1;
        assert(out@.map_values(plain) =~= all.take(k as int));
    }
    assert(all.take(k as int) =~= all);
    out
}

/// Describes the inputs of a session by plain values.
pub fn describe_inputs(session: &Session) -> (r: Vec<ModelInput>)
    ensures
        input_views(r@) == described_inputs(*session),
{
    describe_outlets(session.inputs())
}

/// The first input with the given name, if there is one.
pub open spec fn input_named(inputs: Seq<InputView>, name: Seq<char>) -> Option<InputView>
    decreases inputs.len(),
{
    if inputs.len() == 0 {
        None
    } else if inputs[0].0 == name {
        Some(inputs[0])
    } else {
        input_named(inputs.drop_first(), name)
    }
}

/// Finds the first input with the given name.
pub fn find_input(inputs: &[ModelInput], name: &str) -> (r: Option<usize>)
    ensures
        r is Some <==> input_named(input_views(inputs@), name@) is Some,
        r matches Some(k) ==> k < inputs@.len() && input_named(
            input_views(inputs@),
            name@,
        ) == Some(inputs@[k as int]@),
{
    let wanted = name.to_string();
    let ghost all = input_views(inputs@);
    let mut k: usize = 0;
    assert(all.skip(0) =~= all);
    while k < inputs.len()
        invariant
            k <= inputs@.len(),
            wanted@ == name@,
            all == input_views(inputs@),
            input_named(all, name@) == input_named(all.skip(k as int), name@),
        decreases inputs@.len() - k,
    {
        assert(all.skip(k as int)[0] == inputs@[k as int]@);
        if inputs[k].name == wanted {
            return Some(k);
        }
        assert(all.skip(k as int).drop_first() =~= all.skip(k + 1));
        k += 1;
    }
    None
}

/// The first input with a name is the one that the name stands for.
pub proof fn the_first_input_of_a_name_is_found(inputs: Seq<InputView>, k: int)
    requires
        0 <= k < inputs.len(),
        forall|j: int| 0 <= j < k ==> (#[trigger] inputs[j]).0 != inputs[k].0,
    ensures
        input_named(inputs, inputs[k].0) == Some(inputs[k]),
    decreases inputs.len(),
{
    if k > 0 {
        assert(inputs[0].0 != inputs[k].0);
        let rest = inputs.drop_first();
        assert forall|j: int| 0 <= j < k - 1 implies (#[trigger] rest[j]).0 != rest[k - 1].0 by {
            assert(inputs[j + 1].0 != inputs[k].0);
        }
        the_first_input_of_a_name_is_found(rest, k - 1);
    }
}

/// A name stands for no input only if no input has it.
pub proof fn a_name_without_input_is_not_found(inputs: Seq<InputView>, name: Seq<char>)
    ensures
        input_named(inputs, name) is None <==> (forall|k: int|
            0 <= k < inputs.len() ==> (#[trigger] inputs[k]).0 != name),
    decreases inputs.len(),
{
    if inputs.len() > 0 {
        let rest = inputs.drop_first();
        a_name_without_input_is_not_found(rest, name);
        if input_named(inputs, name) is None {
            assert forall|k: int| 0 <= k < inputs.len() implies (#[trigger] inputs[k]).0
                != name by {
                if k > 0 {
                    assert(rest[k - 1].0 != name);
                }
            }
        } else if inputs[0].0 != name {
            let k = choose|k: int| 0 <= k < rest.len() && (#[trigger] rest[k]).0 == name;
            assert(inputs[k + 1].0 == name);
        }
    }
}

/// Every input that a session declares is described, in order, by its own name, shape and type.
pub proof fn all_inputs_are_described(session: Session, k: int)
    requires
        0 <= k < session_inputs(session).len(),
    ensures
        described_inputs(session).len() == session_inputs(session).len(),
        described_inputs(session)[k].0 == outlet_name(session_inputs(session)[k]),
        described_inputs(session)[k].1 == outlet_shape(session_inputs(session)[k]),
        described_inputs(session)[k].2 == outlet_type_text(session_inputs(session)[k]),
{
}

/// What is known of each input is its own name, shape and type, in order.
pub proof fn all_inputs_are_viewed(inputs: Seq<ModelInput>, k: int)
    requires
        0 <= k < inputs.len(),
    ensures
        input_views(inputs).len() == inputs.len(),
        input_views(inputs)[k].0 == inputs[k].name@,
        input_views(inputs)[k].1 is None <==> inputs[k].shape is None,
        inputs[k].shape matches Some(dims) ==> input_views(inputs)[k].1 == Some(dims@),
        input_views(inputs)[k].2 == inputs[k].type_text@,
{
}

} // verus!
