//! Programs as text: one line per instruction, indented by the blocks it is in, with the
//! variables each defines on the left and those it reads in brackets after it.
use std::time::Duration;

use vstd::prelude::*;

use crate::builder::defined_count;
use crate::artifact::{Artifact, Campaign, Revision};
use crate::compiler::{CompilerError, CompilerErrorView};
use crate::errors::{ProgramValidationError, ValidationErrorView};
use crate::instruction::{Instruction, InstructionView};
use crate::operation::{Operation, OperationView};
use crate::program::{instruction_views, Program, ProgramContext, ProgramView};
use crate::text::{decimal, decimal_u64, push_char};
use crate::variable::{Protocol, Variable};

verus! {

/// The name a protocol is printed under.
pub open spec fn protocol_text(p: Protocol) -> Seq<char> {
    match p {
        Protocol::Mining => "mining"@,
        Protocol::JobDeclaration => "job-declaration"@,
        Protocol::TemplateDistribution => "template-distribution"@,
    }
}

/// The name a variable type is printed under.
pub open spec fn variable_text(v: Variable) -> Seq<char> {
    match v {
        Variable::Nop => "nop"@,
        Variable::Role => "role"@,
        Variable::Connection => "connection"@,
        Variable::Session(p) => "session<"@ + protocol_text(p) + ">"@,
        Variable::Version => "version"@,
        Variable::Flags => "flags"@,
        Variable::Port => "port"@,
        Variable::Str => "str"@,
        Variable::Bytes => "bytes"@,
        Variable::Duration => "duration"@,
        Variable::MutSetupConnection => "mut-setup-connection"@,
        Variable::ConstSetupConnection(p) => "setup-connection<"@ + protocol_text(p) + ">"@,
    }
}

/// A hexadecimal digit, in lower case.
pub open spec fn hex_digit(d: nat) -> char {
    if d < 10 {
        (48 + d) as char
    } else {
        (87 + d) as char
    }
}

/// The last `width` hexadecimal digits of `n`, most significant first, zeros in front.
pub open spec fn hex(n: nat, width: nat) -> Seq<char>
    decreases width,
{
    if width == 0 {
        seq![]
    } else {
        hex(n / 16, (width - 1) as nat) + seq![hex_digit(n % 16)]
    }
}

/// A string as Rust's `Debug` writes it: quoted, with what needs it escaped.
pub uninterp spec fn quoted(s: Seq<char>) -> Seq<char>;

/// A duration as Rust's `Debug` writes it, in the unit that suits it.
pub uninterp spec fn duration_text(d: Duration) -> Seq<char>;

/// `format!("{s:?}")` of a string.
#[verifier::external_body]
fn debug_str(s: &str) -> (r: String)
    ensures
        r@ == quoted(s@),
{
    format!("{s:?}")
}

/// `format!("{d:?}")` of a duration.
#[verifier::external_body]
fn debug_duration(d: &Duration) -> (r: String)
    ensures
        r@ == duration_text(*d),
{
    format!("{d:?}")
}

/// An operation as it is printed.
#[verifier::opaque]
pub open spec fn operation_text(op: OperationView) -> Seq<char> {
    match op {
        OperationView::Nop { .. } => "Nop"@,
        OperationView::LoadRole(i) => "LoadRole("@ + decimal(i as nat) + ")"@,
        OperationView::LoadConnection(i) => "LoadConnection("@ + decimal(i as nat) + ")"@,
        OperationView::LoadVersion(v) => "LoadVersion("@ + decimal(v as nat) + ")"@,
        OperationView::LoadFlags(v) => "LoadFlags(0x"@ + hex(v as nat, 8) + ")"@,
        OperationView::LoadPort(v) => "LoadPort("@ + decimal(v as nat) + ")"@,
        OperationView::LoadStr(s) => "LoadStr("@ + quoted(s) + ")"@,
        OperationView::LoadBytes(b) => "LoadBytes("@ + decimal(b.len()) + " bytes)"@,
        OperationView::LoadDuration(d) => "LoadDuration("@ + duration_text(d) + ")"@,
        OperationView::Connect => "Connect"@,
        OperationView::BeginBuildSetupConnection => "BeginBuildSetupConnection"@,
        OperationView::SetVersions => "SetVersions"@,
        OperationView::SetFlags => "SetFlags"@,
        OperationView::SetEndpoint => "SetEndpoint"@,
        OperationView::SetDeviceInfo => "SetDeviceInfo"@,
        OperationView::EndBuildSetupConnection { protocol } => "EndBuildSetupConnection<"@ + protocol_text(protocol) + ">"@,
        OperationView::SendSetupConnection { protocol } => "SendSetupConnection<"@ + protocol_text(protocol) + ">"@,
        OperationView::BeginOnSetupSuccess { protocol } => "BeginOnSetupSuccess<"@ + protocol_text(protocol) + ">"@,
        OperationView::EndOnSetupSuccess => "EndOnSetupSuccess"@,
        OperationView::SendRawFrame { message_type, extension_type } => "SendRawFrame(0x"@ + hex(message_type as nat, 2) + ", 0x"@
            + hex(extension_type as nat, 4) + ")"@,
        OperationView::AdvanceTime => "AdvanceTime"@,
        OperationView::Probe => "Probe"@,
    }
}

/// `count` variables from `from` on, by name, separated by commas.
pub open spec fn var_names(from: nat, count: nat) -> Seq<char>
    decreases count,
{
    if count == 0 {
        seq![]
    } else if count == 1 {
        "v"@ + decimal(from)
    } else {
        "v"@ + decimal(from) + ", "@ + var_names(from + 1, (count - 1) as nat)
    }
}

/// The variables read, by name, separated by commas.
pub open spec fn input_names(inputs: Seq<usize>) -> Seq<char>
    decreases inputs.len(),
{
    if inputs.len() == 0 {
        seq![]
    } else if inputs.len() == 1 {
        "v"@ + decimal(inputs[0] as nat)
    } else {
        "v"@ + decimal(inputs[0] as nat) + ", "@ + input_names(inputs.drop_first())
    }
}

/// Two spaces for each level of indentation.
pub open spec fn spaces(indent: nat) -> Seq<char>
    decreases indent,
{
    if indent == 0 {
        seq![]
    } else {
        "  "@ + spaces((indent - 1) as nat)
    }
}

/// The indentation a line is written at: a block end goes back a level, never past none.
pub open spec fn line_indent(op: OperationView, indent: nat) -> nat {
    if op.is_block_end() {
        if indent > 0 {
            (indent - 1) as nat
        } else {
            0
        }
    } else {
        indent
    }
}

/// The indentation after a line: a block beginning opens a level.
pub open spec fn next_indent(op: OperationView, indent: nat) -> nat {
    line_indent(op, indent) + if op.is_block_begin() {
        1nat
    } else {
        0nat
    }
}

/// The variables an operation defines in its own scope, named, with the arrow after them.
pub open spec fn outputs_part(op: OperationView, var: nat) -> Seq<char> {
    if op.outputs().len() > 0 {
        var_names(var, op.outputs().len()) + " <- "@
    } else {
        seq![]
    }
}

/// The variables an instruction reads, named, in brackets.
pub open spec fn inputs_part(inputs: Seq<usize>) -> Seq<char> {
    if inputs.len() > 0 {
        "("@ + input_names(inputs) + ")"@
    } else {
        seq![]
    }
}

/// The variables an operation defines in the block it opens, named, after an arrow; `var` is
/// the first of them.
pub open spec fn inner_part(op: OperationView, var: nat) -> Seq<char> {
    if op.inner_outputs().len() > 0 {
        " -> "@ + var_names(var, op.inner_outputs().len())
    } else {
        seq![]
    }
}

/// One instruction's line, `var` being the number of the first variable it defines.
pub open spec fn instruction_text(ins: InstructionView, var: nat, indent: nat) -> Seq<char> {
    spaces(line_indent(ins.operation, indent)) + outputs_part(ins.operation, var) + operation_text(ins.operation)
        + inputs_part(ins.inputs) + inner_part(ins.operation, var + ins.operation.outputs().len()) + "\n"@
}

/// The lines of the instructions, the first defining variables from `var` on at `indent`.
pub open spec fn lines_text(a: Seq<InstructionView>, var: nat, indent: nat) -> Seq<char>
    decreases a.len(),
{
    if a.len() == 0 {
        seq![]
    } else {
        instruction_text(a[0], var, indent) + lines_text(
            a.drop_first(),
            var + a[0].operation.num_defined(),
            next_indent(a[0].operation, indent),
        )
    }
}

/// The comment line a program starts with: what it runs against.
pub open spec fn context_text(c: ProgramContext) -> Seq<char> {
    "// roles="@ + decimal(c.num_roles as nat) + " connections="@ + decimal(c.num_connections as nat) + " seed="@
        + decimal(c.seed as nat) + "\n"@
}

/// A program as it is printed.
pub open spec fn program_text(p: ProgramView) -> Seq<char> {
    context_text(p.context) + lines_text(p.instructions, 0, 0)
}

/// The string with `more` at its end.
fn append(s: &mut String, more: &str)
    ensures
        final(s)@ == old(s)@ + more@,
{
    s.append(more);
}

/// A number in decimal.
fn decimal_text(n: u64) -> (s: String)
    ensures
        s@ == decimal(n as nat),
{
    decimal_u64(n)
}

/// The last `width` hexadecimal digits of `n`.
fn hex_text(n: u64, width: usize) -> (s: String)
    ensures
        s@ == hex(n as nat, width as nat),
    decreases width,
{
    if width == 0 {
        String::new()
    } else {
        let mut s = hex_text(n / 16, width - 1);
        let d = n % 16;
        let c: char = if d < 10 {
            ((48 + d) as u8) as char
        } else {
            ((87 + d) as u8) as char
        };
        push_char(&mut s, c);
        s
    }
}

impl Protocol {
    /// The protocol as it is printed.
    pub fn render(&self) -> (s: String)
        ensures
            s@ == protocol_text(*self),
    {
        match self {
            Protocol::Mining => "mining".to_owned(),
            Protocol::JobDeclaration => "job-declaration".to_owned(),
            Protocol::TemplateDistribution => "template-distribution".to_owned(),
        }
    }
}

impl Variable {
    /// The variable type as it is printed.
    pub fn render(&self) -> (s: String)
        ensures
            s@ == variable_text(*self),
    {
        match self {
            Variable::Nop => "nop".to_owned(),
            Variable::Role => "role".to_owned(),
            Variable::Connection => "connection".to_owned(),
            Variable::Session(p) => {
                let mut s = "session<".to_owned();
                append(&mut s, p.render().as_str());
                append(&mut s, ">");
                s
            },
            Variable::Version => "version".to_owned(),
            Variable::Flags => "flags".to_owned(),
            Variable::Port => "port".to_owned(),
            Variable::Str => "str".to_owned(),
            Variable::Bytes => "bytes".to_owned(),
            Variable::Duration => "duration".to_owned(),
            Variable::MutSetupConnection => "mut-setup-connection".to_owned(),
            Variable::ConstSetupConnection(p) => {
                let mut s = "setup-connection<".to_owned();
                append(&mut s, p.render().as_str());
                append(&mut s, ">");
                s
            },
        }
    }
}

/// `head`, then the thing in between, then `tail`.
fn wrapped(head: &str, middle: &str, tail: &str) -> (s: String)
    ensures
        s@ == head@ + middle@ + tail@,
{
    let mut s = head.to_owned();
    append(&mut s, middle);
    append(&mut s, tail);
    s
}

impl Operation {
    /// The operation as it is printed.
    pub fn render(&self) -> (s: String)
        ensures
            s@ == operation_text(self@),
    {
        reveal(operation_text);
        match self {
            Operation::Nop { .. } => "Nop".to_owned(),
            Operation::LoadRole(i) => wrapped("LoadRole(", decimal_text(*i as u64).as_str(), ")"),
            Operation::LoadConnection(i) => wrapped("LoadConnection(", decimal_text(*i as u64).as_str(), ")"),
            Operation::LoadVersion(v) => wrapped("LoadVersion(", decimal_text(*v as u64).as_str(), ")"),
            Operation::LoadFlags(v) => wrapped("LoadFlags(0x", hex_text(*v as u64, 8).as_str(), ")"),
            Operation::LoadPort(v) => wrapped("LoadPort(", decimal_text(*v as u64).as_str(), ")"),
            Operation::LoadStr(v) => wrapped("LoadStr(", debug_str(v.as_str()).as_str(), ")"),
            Operation::LoadBytes(v) => wrapped("LoadBytes(", decimal_text(v.len() as u64).as_str(), " bytes)"),
            Operation::LoadDuration(v) => wrapped("LoadDuration(", debug_duration(v).as_str(), ")"),
            Operation::Connect => "Connect".to_owned(),
            Operation::BeginBuildSetupConnection => "BeginBuildSetupConnection".to_owned(),
            Operation::SetVersions => "SetVersions".to_owned(),
            Operation::SetFlags => "SetFlags".to_owned(),
            Operation::SetEndpoint => "SetEndpoint".to_owned(),
            Operation::SetDeviceInfo => "SetDeviceInfo".to_owned(),
            Operation::EndBuildSetupConnection { protocol } => wrapped("EndBuildSetupConnection<", protocol.render().as_str(), ">"),
            Operation::SendSetupConnection { protocol } => wrapped("SendSetupConnection<", protocol.render().as_str(), ">"),
            Operation::BeginOnSetupSuccess { protocol } => wrapped("BeginOnSetupSuccess<", protocol.render().as_str(), ">"),
            Operation::EndOnSetupSuccess => "EndOnSetupSuccess".to_owned(),
            Operation::SendRawFrame { message_type, extension_type } => {
                let mut s = wrapped("SendRawFrame(0x", hex_text(*message_type as u64, 2).as_str(), ", 0x");
                append(&mut s, hex_text(*extension_type as u64, 4).as_str());
                append(&mut s, ")");
                s
            },
            Operation::AdvanceTime => "AdvanceTime".to_owned(),
            Operation::Probe => "Probe".to_owned(),
        }
    }
}

/// The string with `indent` levels of indentation at its end.
fn push_spaces(s: &mut String, indent: usize)
    ensures
        final(s)@ == old(s)@ + spaces(indent as nat),
    decreases indent,
{
    if indent > 0 {
        append(s, "  ");
        push_spaces(s, indent - 1);
        assert(old(s)@ + "  "@ + spaces((indent - 1) as nat) =~= old(s)@ + spaces(indent as nat));
    }
}

/// The string with the names of `count` variables from `from` on at its end.
fn push_var_names(s: &mut String, from: usize, count: usize)
    requires
        from + count <= usize::MAX,
    ensures
        final(s)@ == old(s)@ + var_names(from as nat, count as nat),
    decreases count,
{
    if count == 0 {
        return;
    }
    append(s, "v");
    append(s, decimal_text(from as u64).as_str());
    if count > 1 {
        append(s, ", ");
        push_var_names(s, from + 1, count - 1);
    }
    assert(final(s)@ =~= old(s)@ + var_names(from as nat, count as nat));
}

/// The string with the names of the variables read at its end.
fn push_input_names(s: &mut String, inputs: &[usize])
    ensures
        final(s)@ == old(s)@ + input_names(inputs@),
{
    let ghost start = s@;
    let mut k: usize = 0;
    assert(inputs@.subrange(0, inputs@.len() as int) =~= inputs@);
    while k < inputs.len()
        invariant
            k <= inputs@.len(),
            s@ + input_names(inputs@.subrange(k as int, inputs@.len() as int)) == start + input_names(inputs@),
        decreases inputs@.len() - k,
    {
        let ghost rest = inputs@.subrange(k as int, inputs@.len() as int);
        let ghost before = s@;
        append(s, "v");
        append(s, decimal_text(inputs[k] as u64).as_str());
        if k + 1 < inputs.len() {
            append(s, ", ");
        }
        proof {
            let next = inputs@.subrange(k + 1, inputs@.len() as int);
            assert(rest.drop_first() =~= next);
            assert(rest[0] == inputs@[k as int]);
            if k + 1 < inputs@.len() {
                assert(input_names(rest) == "v"@ + decimal(rest[0] as nat) + ", "@ + input_names(next));
            } else {
                assert(input_names(rest) == "v"@ + decimal(rest[0] as nat));
                assert(next.len() == 0);
            }
            assert(s@ + input_names(next) =~= before + input_names(rest));
        }
        k = k + 1;
    }
    assert(inputs@.subrange(inputs@.len() as int, inputs@.len() as int).len() == 0);
    assert(s@ =~= start + input_names(inputs@));
}

/// The string with the names of the variables an operation defines in its own scope at its
/// end. Hands back how many there are.
fn push_outputs(s: &mut String, operation: &Operation, var: usize) -> (n: usize)
    requires
        var + operation@.num_defined() <= usize::MAX,
    ensures
        final(s)@ == old(s)@ + outputs_part(operation@, var as nat),
        n == operation@.outputs().len(),
{
    let outputs = operation.num_outputs();
    if outputs > 0 {
        push_var_names(s, var, outputs);
        append(s, " <- ");
    }
    outputs
}

/// The string with the names of the variables an instruction reads at its end.
fn push_inputs(s: &mut String, inputs: &Vec<usize>)
    ensures
        final(s)@ == old(s)@ + inputs_part(inputs@),
{
    if inputs.len() > 0 {
        append(s, "(");
        push_input_names(s, inputs.as_slice());
        append(s, ")");
    }
}

/// The string with the names of the variables an operation defines in the block it opens at
/// its end, the first of them being `var`.
fn push_inner(s: &mut String, operation: &Operation, var: usize)
    requires
        var + operation@.inner_outputs().len() <= usize::MAX,
    ensures
        final(s)@ == old(s)@ + inner_part(operation@, var as nat),
{
    let inner = operation.num_inner_outputs();
    if inner > 0 {
        append(s, " -> ");
        push_var_names(s, var, inner);
    }
}

/// The string with an instruction's line at its end, `var` being the first variable it
/// defines. Hands back the indentation after it.
#[verifier::rlimit(40)]
fn push_instruction(s: &mut String, instruction: &Instruction, var: usize, indent: usize) -> (next: usize)
    requires
        var + instruction@.operation.num_defined() <= usize::MAX,
        indent < usize::MAX,
    ensures
        final(s)@ == old(s)@ + instruction_text(instruction@, var as nat, indent as nat),
        next == next_indent(instruction@.operation, indent as nat),
{
    let ghost start = s@;
    let operation = &instruction.operation;
    let at: usize = if operation.is_block_end() && indent > 0 {
        indent - 1
    } else {
        indent
    };
    push_spaces(s, at);
    let outputs = push_outputs(s, operation, var);
    append(s, operation.render().as_str());
    push_inputs(s, &instruction.inputs);
    push_inner(s, operation, var + outputs);
    append(s, "\n");
    assert(s@ =~= start + instruction_text(instruction@, var as nat, indent as nat));
    if operation.is_block_begin() {
        at + 1
    } else {
        at
    }
}

impl Program {
    /// The program as it is printed: what it runs against, then one line per instruction.
    pub fn render(&self) -> (s: String)
        requires
            defined_count(self@.instructions) <= usize::MAX,
        ensures
            s@ == program_text(self@),
    {
        let ghost a = self@.instructions;
        let mut s = "// roles=".to_owned();
        append(&mut s, decimal_text(self.context.num_roles as u64).as_str());
        append(&mut s, " connections=");
        append(&mut s, decimal_text(self.context.num_connections as u64).as_str());
        append(&mut s, " seed=");
        append(&mut s, decimal_text(self.context.seed).as_str());
        append(&mut s, "\n");
        assert(s@ =~= context_text(self.context));
        let mut var: usize = 0;
        let mut indent: usize = 0;
        let mut k: usize = 0;
        assert(a.subrange(0, a.len() as int) =~= a);
        assert(a.take(0) =~= Seq::<InstructionView>::empty());
        while k < self.instructions.len()
            invariant
                a == self@.instructions,
                k <= a.len(),
                defined_count(a) <= usize::MAX,
                var == defined_count(a.take(k as int)),
                indent <= k,
                s@ + lines_text(a.subrange(k as int, a.len() as int), var as nat, indent as nat) == program_text(self@),
            decreases a.len() - k,
        {
            let ghost rest = a.subrange(k as int, a.len() as int);
            let ghost before = s@;
            let ghost var0 = var;
            let ghost indent0 = indent;
            proof {
                crate::builder::lemma_defined_count_prefix(a, k + 1);
                assert(a.take(k + 1).drop_last() =~= a.take(k as int));
                assert(a.take(k + 1).last() == a[k as int]);
            }
            let instruction = &self.instructions[k];
            indent = push_instruction(&mut s, instruction, var, indent);
            var = var + instruction.operation.num_outputs() + instruction.operation.num_inner_outputs();
            proof {
                assert(rest.drop_first() =~= a.subrange(k + 1, a.len() as int));
                assert(rest[0] == a[k as int]);
                assert(s@ + lines_text(a.subrange(k + 1, a.len() as int), var as nat, indent as nat) =~= before + lines_text(rest, var0 as nat, indent0 as nat));
            }
            k = k + 1;
        }
        s
    }
}

/// What a validation error says.
pub open spec fn validation_error_text(e: ValidationErrorView) -> Seq<char> {
    match e {
        ValidationErrorView::InvalidNumberOfInputs { is, expected } => "expected "@ + decimal(expected as nat) + " inputs, got "@
            + decimal(is as nat),
        ValidationErrorView::InvalidVariableType { is, expected } => "expected a "@ + variable_text(expected) + " input, got a "@
            + variable_text(is),
        ValidationErrorView::VariableNotDefined(i) => "v"@ + decimal(i as nat) + " is not in scope"@,
        ValidationErrorView::RoleNotFound(i) => "role "@ + decimal(i as nat) + " is not in the context"@,
        ValidationErrorView::ConnectionNotFound(i) => "connection "@ + decimal(i as nat) + " is not in the context"@,
        ValidationErrorView::InvalidBlockEnd { begin, end } => operation_text(end) + " does not close "@ + operation_text(begin),
        ValidationErrorView::UnfinishedBlock(op) => operation_text(op) + " is never closed"@,
    }
}

impl ProgramValidationError {
    /// What the error says.
    pub fn message(&self) -> (m: String)
        ensures
            m@ == validation_error_text(self@),
    {
        match self {
            ProgramValidationError::InvalidNumberOfInputs { is, expected } => {
                let mut m = wrapped("expected ", decimal_text(*expected as u64).as_str(), " inputs, got ");
                append(&mut m, decimal_text(*is as u64).as_str());
                m
            },
            ProgramValidationError::InvalidVariableType { is, expected } => {
                let mut m = wrapped("expected a ", expected.render().as_str(), " input, got a ");
                append(&mut m, is.render().as_str());
                m
            },
            ProgramValidationError::VariableNotDefined(i) => wrapped("v", decimal_text(*i as u64).as_str(), " is not in scope"),
            ProgramValidationError::RoleNotFound(i) => wrapped("role ", decimal_text(*i as u64).as_str(), " is not in the context"),
            ProgramValidationError::ConnectionNotFound(i) => wrapped(
                "connection ",
                decimal_text(*i as u64).as_str(),
                " is not in the context",
            ),
            ProgramValidationError::InvalidBlockEnd { begin, end } => {
                let mut m = end.render();
                append(&mut m, " does not close ");
                append(&mut m, begin.render().as_str());
                m
            },
            ProgramValidationError::UnfinishedBlock(op) => {
                let mut m = op.render();
                append(&mut m, " is never closed");
                m
            },
        }
    }
}

/// `true` or `false`.
pub open spec fn bool_text(b: bool) -> Seq<char> {
    if b {
        "true"@
    } else {
        "false"@
    }
}

/// How long a trace is, or that there is none.
pub open spec fn trace_text(trace: Option<Vec<u8>>) -> Seq<char> {
    match trace {
        Some(bytes) => decimal(bytes@.len()) + " bytes"@,
        None => "none"@,
    }
}

/// A comment line for each revision the harness was built against.
pub open spec fn revision_lines(revisions: Seq<Revision>) -> Seq<char>
    decreases revisions.len(),
{
    if revisions.len() == 0 {
        seq![]
    } else {
        "// built against "@ + revisions[0].name@ + " "@ + revisions[0].version@ + " "@ + revisions[0].source@ + "\n"@
            + revision_lines(revisions.drop_first())
    }
}

/// The comment line of the campaign that found the program, if one did.
pub open spec fn campaign_line(campaign: Option<Campaign>) -> Seq<char> {
    match campaign {
        Some(c) => "// campaign seed="@ + decimal(c.seed as nat) + " iteration="@ + decimal(c.iteration as nat) + "\n"@,
        None => seq![],
    }
}

/// The program the failing one was mutated from, if the campaign kept it.
pub open spec fn parent_text(campaign: Option<Campaign>) -> Seq<char> {
    match campaign {
        Some(c) => match c.parent {
            Some(p) => "// mutated from:\n"@ + program_text(p@),
            None => seq![],
        },
        None => seq![],
    }
}

/// An artifact as it is printed: the envelope as comment lines the program's own header
/// already uses, then the program, then what it was mutated from.
pub open spec fn artifact_text(a: Artifact) -> Seq<char> {
    "// scenario="@ + a.scenario@ + "\n"@ + "// verdict="@ + a.verdict@ + "\n"@ + "// confirmed="@ + bool_text(a.confirmed)
        + " trace="@ + trace_text(a.trace) + "\n"@ + campaign_line(a.campaign) + revision_lines(a.revisions@) + program_text(
        a.program@,
    ) + parent_text(a.campaign)
}

/// Whether an artifact's programs can be printed: each defines no more variables than can be
/// numbered.
pub open spec fn printable(a: Artifact) -> bool {
    &&& defined_count(a.program@.instructions) <= usize::MAX
    &&& a.campaign matches Some(c) ==> (c.parent matches Some(p) ==> defined_count(p@.instructions) <= usize::MAX)
}

/// The string with the envelope's first lines at its end: scenario, verdict, confirmation and
/// trace.
fn push_verdict(s: &mut String, artifact: &Artifact)
    ensures
        final(s)@ == old(s)@ + "// scenario="@ + artifact.scenario@ + "\n"@ + "// verdict="@ + artifact.verdict@ + "\n"@
            + "// confirmed="@ + bool_text(artifact.confirmed) + " trace="@ + trace_text(artifact.trace) + "\n"@,
{
    let ghost start = s@;
    append(s, "// scenario=");
    append(s, artifact.scenario.as_str());
    append(s, "\n");
    append(s, "// verdict=");
    append(s, artifact.verdict.as_str());
    append(s, "\n");
    append(s, "// confirmed=");
    append(s, if artifact.confirmed { "true" } else { "false" });
    append(s, " trace=");
    let ghost before_trace = s@;
    match &artifact.trace {
        Some(bytes) => {
            append(s, decimal_text(bytes.len() as u64).as_str());
            append(s, " bytes");
        },
        None => append(s, "none"),
    }
    assert(s@ =~= before_trace + trace_text(artifact.trace));
    append(s, "\n");
    assert(s@ =~= start + "// scenario="@ + artifact.scenario@ + "\n"@ + "// verdict="@ + artifact.verdict@ + "\n"@
        + "// confirmed="@ + bool_text(artifact.confirmed) + " trace="@ + trace_text(artifact.trace) + "\n"@);
}

/// The string with the campaign's line at its end, if there was a campaign.
fn push_campaign(s: &mut String, campaign: &Option<Campaign>)
    ensures
        final(s)@ == old(s)@ + campaign_line(*campaign),
{
    match campaign {
        Some(c) => {
            append(s, "// campaign seed=");
            append(s, decimal_text(c.seed).as_str());
            append(s, " iteration=");
            append(s, decimal_text(c.iteration).as_str());
            append(s, "\n");
        },
        None => {},
    }
}

/// The string with a line for each revision at its end.
fn push_revisions(s: &mut String, revisions: &Vec<Revision>)
    ensures
        final(s)@ == old(s)@ + revision_lines(revisions@),
{
    let ghost start = s@;
    let ghost all = revisions@;
    let mut k: usize = 0;
    assert(all.subrange(0, all.len() as int) =~= all);
    while k < revisions.len()
        invariant
            all == revisions@,
            k <= all.len(),
            s@ + revision_lines(all.subrange(k as int, all.len() as int)) == start + revision_lines(all),
        decreases all.len() - k,
    {
        let ghost before = s@;
        let revision = &revisions[k];
        append(s, "// built against ");
        append(s, revision.name.as_str());
        append(s, " ");
        append(s, revision.version.as_str());
        append(s, " ");
        append(s, revision.source.as_str());
        append(s, "\n");
        proof {
            let rest = all.subrange(k as int, all.len() as int);
            assert(rest.drop_first() =~= all.subrange(k + 1, all.len() as int));
            assert(rest[0] == all[k as int]);
            assert(s@ + revision_lines(all.subrange(k + 1, all.len() as int)) =~= before + revision_lines(rest));
        }
        k = k + 1;
    }
    assert(all.subrange(all.len() as int, all.len() as int).len() == 0);
    assert(s@ =~= start + revision_lines(all));
}

/// The string with the program the failing one was mutated from at its end, if it was kept.
fn push_parent(s: &mut String, campaign: &Option<Campaign>)
    requires
        campaign matches Some(c) ==> (c.parent matches Some(p) ==> defined_count(p@.instructions) <= usize::MAX),
    ensures
        final(s)@ == old(s)@ + parent_text(*campaign),
{
    match campaign {
        Some(c) => match &c.parent {
            Some(parent) => {
                append(s, "// mutated from:\n");
                append(s, parent.render().as_str());
            },
            None => {},
        },
        None => {},
    }
}

impl Artifact {
    /// The artifact as it is printed.
    pub fn render(&self) -> (s: String)
        requires
            printable(*self),
        ensures
            s@ == artifact_text(*self),
    {
        let mut s = String::new();
        push_verdict(&mut s, self);
        push_campaign(&mut s, &self.campaign);
        push_revisions(&mut s, &self.revisions);
        append(&mut s, self.program.render().as_str());
        push_parent(&mut s, &self.campaign);
        assert(s@ =~= artifact_text(*self));
        s
    }
}

/// What a compiler error says.
pub open spec fn compiler_error_text(e: CompilerErrorView) -> Seq<char> {
    match e {
        CompilerErrorView::MissingValue(i) => "v"@ + decimal(i as nat) + " has no value"@,
        CompilerErrorView::UnexpectedValue(i) => "v"@ + decimal(i as nat) + " has the wrong type"@,
        CompilerErrorView::StringTooLong(i) => "v"@ + decimal(i as nat) + " is longer than 255 bytes"@,
        CompilerErrorView::Encoding(e) => "encoding failed: "@ + e,
    }
}

impl CompilerError {
    /// What the error says.
    pub fn message(&self) -> (m: String)
        ensures
            m@ == compiler_error_text(self@),
    {
        match self {
            CompilerError::MissingValue(i) => wrapped("v", decimal_text(*i as u64).as_str(), " has no value"),
            CompilerError::UnexpectedValue(i) => wrapped("v", decimal_text(*i as u64).as_str(), " has the wrong type"),
            CompilerError::StringTooLong(i) => wrapped("v", decimal_text(*i as u64).as_str(), " is longer than 255 bytes"),
            CompilerError::Encoding(e) => {
                let mut m = "encoding failed: ".to_owned();
                append(&mut m, e.as_str());
                m
            },
        }
    }
}

/// Whether the variables of the instructions can all be numbered.
fn numbering_fits(instructions: &Vec<Instruction>) -> (b: bool)
    ensures
        b == (defined_count(instruction_views(instructions@)) <= usize::MAX),
{
    let ghost a = instruction_views(instructions@);
    let mut defined: u128 = 0;
    let mut k: usize = 0;
    while k < instructions.len()
        invariant
            a == instruction_views(instructions@),
            k <= a.len(),
            defined == defined_count(a.take(k as int)),
            defined <= usize::MAX,
        decreases a.len() - k,
    {
        proof {
            assert(a.take(k + 1).drop_last() =~= a.take(k as int));
            assert(a.take(k + 1).last() == a[k as int]);
        }
        let operation = &instructions[k].operation;
        defined = defined + operation.num_outputs() as u128 + operation.num_inner_outputs() as u128;
        if defined > usize::MAX as u128 {
            proof {
                crate::builder::lemma_defined_count_prefix(a, k + 1);
            }
            return false;
        }
        k = k + 1;
    }
    assert(a.take(a.len() as int) =~= a);
    true
}

impl Program {
    /// Whether the program can be printed: its variables can all be numbered.
    pub fn is_printable(&self) -> (b: bool)
        ensures
            b == (defined_count(self@.instructions) <= usize::MAX),
    {
        numbering_fits(&self.instructions)
    }
}

impl Artifact {
    /// Whether the artifact can be printed: the variables of its programs can all be numbered.
    pub fn is_printable(&self) -> (b: bool)
        ensures
            b == printable(*self),
    {
        if !self.program.is_printable() {
            return false;
        }
        match &self.campaign {
            Some(c) => match &c.parent {
                Some(parent) => parent.is_printable(),
                None => true,
            },
            None => true,
        }
    }
}

} // verus!
