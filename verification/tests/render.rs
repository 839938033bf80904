use std::time::Duration;

use stratamoto::{
    Instruction, Operation, Program, ProgramContext, Protocol, Variable,
    errors::ProgramValidationError,
};

fn setup_program() -> Program {
    Program::unchecked_new(
        ProgramContext {
            num_roles: 3,
            num_connections: 0,
            seed: 7,
        },
        vec![
            Instruction::new(Operation::LoadRole(1), vec![]),
            Instruction::new(Operation::Connect, vec![0]),
            Instruction::new(Operation::BeginBuildSetupConnection, vec![]),
            Instruction::new(Operation::LoadFlags(5), vec![]),
            Instruction::new(Operation::SetFlags, vec![2, 3]),
            Instruction::new(
                Operation::EndBuildSetupConnection {
                    protocol: Protocol::Mining,
                },
                vec![2],
            ),
            Instruction::new(
                Operation::SendSetupConnection {
                    protocol: Protocol::Mining,
                },
                vec![1, 4],
            ),
        ],
    )
}

#[test]
fn a_program_prints_one_line_per_instruction() {
    assert_eq!(
        setup_program().render(),
        "// roles=3 connections=0 seed=7\n\
         v0 <- LoadRole(1)\n\
         v1 <- Connect(v0)\n\
         BeginBuildSetupConnection -> v2\n  \
         v3 <- LoadFlags(0x00000005)\n  \
         SetFlags(v2, v3)\n\
         v4 <- EndBuildSetupConnection<mining>(v2)\n\
         v5 <- SendSetupConnection<mining>(v1, v4)\n"
    );
}

#[test]
fn an_empty_program_is_its_context() {
    let program = Program::unchecked_new(
        ProgramContext {
            num_roles: 1,
            num_connections: 2,
            seed: 18446744073709551615,
        },
        vec![],
    );
    assert_eq!(
        program.render(),
        "// roles=1 connections=2 seed=18446744073709551615\n"
    );
}

#[test]
fn success_blocks_nest_and_nops_keep_their_variables() {
    let program = Program::unchecked_new(
        ProgramContext {
            num_roles: 1,
            num_connections: 0,
            seed: 0,
        },
        vec![
            Instruction::new(
                Operation::Nop {
                    outputs: 2,
                    inner_outputs: 0,
                },
                vec![],
            ),
            Instruction::new(
                Operation::BeginOnSetupSuccess {
                    protocol: Protocol::JobDeclaration,
                },
                vec![1],
            ),
            Instruction::new(Operation::LoadDuration(Duration::from_millis(1500)), vec![]),
            Instruction::new(Operation::EndOnSetupSuccess, vec![]),
            Instruction::new(Operation::EndOnSetupSuccess, vec![]),
        ],
    );
    assert_eq!(
        program.render(),
        "// roles=1 connections=0 seed=0\n\
         v0, v1 <- Nop\n\
         BeginOnSetupSuccess<job-declaration>(v1) -> v2\n  \
         v3 <- LoadDuration(1.5s)\n\
         EndOnSetupSuccess\n\
         EndOnSetupSuccess\n"
    );
}

#[test]
fn operations_print_their_data() {
    assert_eq!(Operation::LoadStr("a\"b".to_string()).render(), "LoadStr(\"a\\\"b\")");
    assert_eq!(Operation::LoadBytes(vec![1, 2, 3]).render(), "LoadBytes(3 bytes)");
    assert_eq!(Operation::LoadVersion(2).render(), "LoadVersion(2)");
    assert_eq!(Operation::LoadPort(3333).render(), "LoadPort(3333)");
    assert_eq!(Operation::LoadFlags(0xdead_beef).render(), "LoadFlags(0xdeadbeef)");
    assert_eq!(
        Operation::SendRawFrame {
            message_type: 0x1f,
            extension_type: 0xa
        }
        .render(),
        "SendRawFrame(0x1f, 0x000a)"
    );
    assert_eq!(
        Operation::BeginOnSetupSuccess {
            protocol: Protocol::TemplateDistribution
        }
        .render(),
        "BeginOnSetupSuccess<template-distribution>"
    );
}

#[test]
fn variables_print_their_protocol() {
    assert_eq!(Variable::Session(Protocol::Mining).render(), "session<mining>");
    assert_eq!(
        Variable::ConstSetupConnection(Protocol::JobDeclaration).render(),
        "setup-connection<job-declaration>"
    );
    assert_eq!(Variable::MutSetupConnection.render(), "mut-setup-connection");
}

#[test]
fn validation_errors_say_what_is_wrong() {
    assert_eq!(
        ProgramValidationError::InvalidNumberOfInputs { is: 1, expected: 2 }.message(),
        "expected 2 inputs, got 1"
    );
    assert_eq!(
        ProgramValidationError::InvalidVariableType {
            is: Variable::Flags,
            expected: Variable::Version
        }
        .message(),
        "expected a version input, got a flags"
    );
    assert_eq!(
        ProgramValidationError::VariableNotDefined(4).message(),
        "v4 is not in scope"
    );
    assert_eq!(
        ProgramValidationError::RoleNotFound(9).message(),
        "role 9 is not in the context"
    );
    assert_eq!(
        ProgramValidationError::ConnectionNotFound(0).message(),
        "connection 0 is not in the context"
    );
    assert_eq!(
        ProgramValidationError::InvalidBlockEnd {
            begin: Operation::BeginBuildSetupConnection,
            end: Operation::EndOnSetupSuccess
        }
        .message(),
        "EndOnSetupSuccess does not close BeginBuildSetupConnection"
    );
    assert_eq!(
        ProgramValidationError::UnfinishedBlock(Operation::BeginBuildSetupConnection).message(),
        "BeginBuildSetupConnection is never closed"
    );
}
