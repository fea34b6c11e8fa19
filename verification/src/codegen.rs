use vstd::prelude::*;
use vstd::string::StringExecFns;

verus! {

/// One processor of a declarative graph description: the binding name and
/// the initialiser expression, both as source text.
pub struct ProcessorDecl {
    pub name: String,
    pub initialiser: String,
}

/// What the verifier sees of a processor declaration.
pub struct ProcessorDeclView {
    pub name: Seq<char>,
    pub initialiser: Seq<char>,
}

impl View for ProcessorDecl {
    type V = ProcessorDeclView;

    open spec fn view(&self) -> ProcessorDeclView {
        ProcessorDeclView { name: self.name@, initialiser: self.initialiser@ }
    }
}

/// The source line that binds one declared processor: like the endpoint
/// lines, it expects the surrounding generated code to define a
/// `{name}_id` binding carrying the instance's identity.
pub open spec fn spec_processor_line(d: ProcessorDeclView) -> Seq<char> {
    "\tlet "@ + d.name + " = rume::make_processor("@ + d.name + "_id, "@ + d.initialiser
        + ");\n"@
}

/// The source lines that bind a run of declared processors, in order.
pub open spec fn spec_processors_init(decls: Seq<ProcessorDeclView>) -> Seq<char>
    decreases decls.len(),
{
    if decls.len() == 0 {
        Seq::empty()
    } else {
        spec_processors_init(decls.drop_last()) + spec_processor_line(decls.last())
    }
}

/// The processors section of a declarative graph description.
pub struct ProcessorsDecl {
    pub decls: Vec<ProcessorDecl>,
}

impl View for ProcessorsDecl {
    type V = Seq<ProcessorDeclView>;

    open spec fn view(&self) -> Seq<ProcessorDeclView> {
        Seq::new(self.decls@.len(), |i: int| self.decls@[i]@)
    }
}

impl ProcessorsDecl {
    /// The source text that binds every declared processor, one line per
    /// declaration, in declaration order.
    pub fn to_processors_init(&self) -> (r: String)
        ensures
            r@ == spec_processors_init(self@),
    {
        let mut out = String::new();
        let mut k: usize = 0;
        while k < self.decls.len()
            invariant
                k <= self@.len(),
                self@.len() == self.decls@.len(),
                forall|i: int| 0 <= i < self@.len() ==> #[trigger] self@[i] == self.decls@[i]@,
                out@ == spec_processors_init(self@.subrange(0, k as int)),
            decreases self@.len() - k,
        {
            let ghost prefix = self@.subrange(0, k as int);
            out.append("\tlet ");
            out.append(self.decls[k].name.as_str());
            out.append(" = rume::make_processor(");
            out.append(self.decls[k].name.as_str());
            out.append("_id, ");
            out.append(self.decls[k].initialiser.as_str());
            out.append(");\n");
            k = k + 1;
            proof {
                assert(self@.subrange(0, k as int).drop_last() =~= prefix);
                assert(self@.subrange(0, k as int).last() == self@[k - 1]);
            }
        }
        proof {
            assert(self@.subrange(0, self@.len() as int) =~= self@);
        }
        out
    }
}

/// The source lines that set up one named output endpoint.
pub open spec fn spec_output_init(name: Seq<char>) -> Seq<char> {
    "\tlet "@ + name + " = rume::make_processor("@ + name + "_id, rume::ProcUnit::Output(rume::OutputEndpoint::new()));\n"@
}

/// The setup lines for a run of named output endpoints.
pub open spec fn spec_outputs_init(names: Seq<Seq<char>>) -> Seq<char>
    decreases names.len(),
{
    if names.len() == 0 {
        Seq::empty()
    } else {
        spec_outputs_init(names.drop_last()) + spec_output_init(names.last())
    }
}

/// One field of the emitted `Outputs` record.
pub open spec fn spec_output_field(name: Seq<char>) -> Seq<char> {
    "\tpub "@ + name + ": usize,\n"@
}

/// The fields of the emitted `Outputs` record.
pub open spec fn spec_output_fields(names: Seq<Seq<char>>) -> Seq<char>
    decreases names.len(),
{
    if names.len() == 0 {
        Seq::empty()
    } else {
        spec_output_fields(names.drop_last()) + spec_output_field(names.last())
    }
}

/// One field initialiser of the emitted `Outputs` record.
pub open spec fn spec_output_field_init(name: Seq<char>) -> Seq<char> {
    name + ": "@ + name + "_id, "@
}

/// The field initialisers of the emitted `Outputs` record.
pub open spec fn spec_output_field_inits(names: Seq<Seq<char>>) -> Seq<char>
    decreases names.len(),
{
    if names.len() == 0 {
        Seq::empty()
    } else {
        spec_output_field_inits(names.drop_last()) + spec_output_field_init(names.last())
    }
}

/// The outputs section of a declarative graph description: the names the
/// declaration gives its output endpoints.
pub struct GraphOutputs {
    pub names: Vec<String>,
}

impl View for GraphOutputs {
    type V = Seq<Seq<char>>;

    open spec fn view(&self) -> Seq<Seq<char>> {
        Seq::new(self.names@.len(), |i: int| self.names@[i]@)
    }
}

impl GraphOutputs {
    /// The source text that sets up every named output endpoint.
    pub fn to_endpoints_init(&self) -> (r: String)
        ensures
            r@ == spec_outputs_init(self@),
    {
        let mut out = String::new();
        let mut k: usize = 0;
        while k < self.names.len()
            invariant
                k <= self@.len(),
                self@.len() == self.names@.len(),
                forall|i: int| 0 <= i < self@.len() ==> #[trigger] self@[i] == self.names@[i]@,
                out@ == spec_outputs_init(self@.subrange(0, k as int)),
            decreases self@.len() - k,
        {
            let ghost prefix = self@.subrange(0, k as int);
            out.append("\tlet ");
            out.append(self.names[k].as_str());
            out.append(" = rume::make_processor(");
            out.append(self.names[k].as_str());
            out.append("_id, rume::ProcUnit::Output(rume::OutputEndpoint::new()));\n");
            k = k + 1;
            proof {
                assert(self@.subrange(0, k as int).drop_last() =~= prefix);
                assert(self@.subrange(0, k as int).last() == self@[k - 1]);
            }
        }
        proof {
            assert(self@.subrange(0, self@.len() as int) =~= self@);
        }
        out
    }

    /// The source text of the `Outputs` record the generated graph hands
    /// back: one field per named output endpoint.
    pub fn to_struct_decl(&self) -> (r: String)
        ensures
            r@ == "\npub struct Outputs {\n"@ + spec_output_fields(self@) + "}\n"@,
    {
        let mut out = String::new();
        out.append("\npub struct Outputs {\n");
        let mut k: usize = 0;
        while k < self.names.len()
            invariant
                k <= self@.len(),
                self@.len() == self.names@.len(),
                forall|i: int| 0 <= i < self@.len() ==> #[trigger] self@[i] == self.names@[i]@,
                out@ == "\npub struct Outputs {\n"@ + spec_output_fields(
                    self@.subrange(0, k as int),
                ),
            decreases self@.len() - k,
        {
            let ghost prefix = self@.subrange(0, k as int);
            out.append("\tpub ");
            out.append(self.names[k].as_str());
            out.append(": usize,\n");
            k = k + 1;
            proof {
                assert(self@.subrange(0, k as int).drop_last() =~= prefix);
                assert(self@.subrange(0, k as int).last() == self@[k - 1]);
            }
        }
        out.append("}\n");
        proof {
            assert(self@.subrange(0, self@.len() as int) =~= self@);
        }
        out
    }

    /// The source text that builds the `Outputs` record.
    pub fn to_struct_init(&self) -> (r: String)
        ensures
            r@ == "Outputs {"@ + spec_output_field_inits(self@) + "}"@,
    {
        let mut out = String::new();
        out.append("Outputs {");
        let mut k: usize = 0;
        while k < self.names.len()
            invariant
                k <= self@.len(),
                self@.len() == self.names@.len(),
                forall|i: int| 0 <= i < self@.len() ==> #[trigger] self@[i] == self.names@[i]@,
                out@ == "Outputs {"@ + spec_output_field_inits(self@.subrange(0, k as int)),
            decreases self@.len() - k,
        {
            let ghost prefix = self@.subrange(0, k as int);
            out.append(self.names[k].as_str());
            out.append(": ");
            out.append(self.names[k].as_str());
            out.append("_id, ");
            k = k + 1;
            proof {
                assert(self@.subrange(0, k as int).drop_last() =~= prefix);
                assert(self@.subrange(0, k as int).last() == self@[k - 1]);
            }
        }
        out.append("}");
        proof {
            assert(self@.subrange(0, self@.len() as int) =~= self@);
        }
        out
    }
}

} // verus!
