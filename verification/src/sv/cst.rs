//! Concrete syntax trees: the nodes of a parse in the order in which they
//! begin, each with the place where it ends.

use crate::sv::span::Span;
use crate::text::{chars_of, same_text};
use vstd::prelude::*;

verus! {

/// What a node is, as far as the lowering looks at it. Nodes that it treats
/// alike share a kind.
#[derive(Clone, Copy, PartialEq, Eq, Structural, Debug)]
pub enum NodeKind {
    /// A token: a part of the source text.
    Locate,
    /// White space or a comment, and what it is made of.
    Blank,
    Symbol,
    Keyword,
    ModuleDeclarationAnsi,
    ModuleDeclarationNonansi,
    ModuleAnsiHeader,
    ModuleIdentifier,
    ListOfPortDeclarations,
    AnsiPortDeclaration,
    PortIdentifier,
    PortDirection,
    NonPortModuleItem,
    ConstantRange,
    ContinuousAssign,
    ContinuousAssignNet,
    ContinuousAssignVariable,
    NetAssignment,
    VariableAssignment,
    NetLvalue,
    VariableLvalue,
    NetDeclaration,
    NetIdentifier,
    NetDeclAssignment,
    DataDeclaration,
    DataDeclarationVariable,
    VariableDeclAssignment,
    DataType,
    /// A type made of bits: `bit`, `logic` or `reg`.
    VectorType,
    InterfacePortHeader,
    PackedDimension,
    /// An unpacked or a variable dimension.
    Dimension,
    /// A dimension without a size.
    OtherDimension,
    VariableIdentifier,
    SimpleIdentifier,
    EscapedIdentifier,
    AlwaysConstruct,
    AlwaysKeyword,
    Statement,
    StatementOrNull,
    ProceduralTimingControlStatement,
    ProceduralTimingControl,
    ConditionalStatement,
    StatementItem,
    SeqBlock,
    BlockItemDeclaration,
    /// An assignment in a procedural block, blocking or not.
    ProceduralAssignment,
    AssignmentOperator,
    /// An event of a sensitivity list: a signal, with or without an edge.
    Event,
    /// An event of another kind.
    OtherEvent,
    EdgeIdentifier,
    ModuleInstantiation,
    HierarchicalInstance,
    NameOfInstance,
    OrderedPortConnection,
    NamedPortConnectionIdentifier,
    NamedPortConnectionAsterisk,
    ParameterValueAssignment,
    /// A module item of another kind.
    OtherItem,
    /// A delay or a strength.
    Delay,
    /// An expression, constant or not.
    Expression,
    /// A binary expression, constant or not.
    Binary,
    BinaryOperator,
    /// A unary expression, constant or not.
    Unary,
    UnaryOperator,
    /// A conditional expression with a predicate.
    Conditional,
    CondPredicate,
    /// A constant conditional expression.
    Ternary,
    /// An expression of another kind.
    OtherExpression,
    /// A concatenation, constant or not.
    Concatenation,
    /// A primary, constant or not.
    Primary,
    PrimaryLiteral,
    /// A primary that is a concatenation, constant or not.
    PrimaryConcatenation,
    /// A primary in parentheses, constant or not.
    Parenthesized,
    /// A choice of a least, a typical and a greatest value.
    MinTypMax,
    PrimaryHierarchical,
    /// A constant primary that is a name.
    PrimaryName,
    HierarchicalIdentifier,
    Select,
    MemberIdentifier,
    BitSelect,
    PartSelectRange,
    IntegralNumber,
    UnbasedUnsizedLiteral,
    /// A node that the lowering only looks into.
    Other,
}

/// The kind of a node, by the name of the grammar rule that it stands for.
pub open spec fn kind_of(name: Seq<char>) -> NodeKind {
    if name == "Locate"@ {
        NodeKind::Locate
    } else if name == "Symbol"@ {
        NodeKind::Symbol
    } else if name == "Keyword"@ {
        NodeKind::Keyword
    } else if name == "ModuleDeclarationAnsi"@ {
        NodeKind::ModuleDeclarationAnsi
    } else if name == "ModuleDeclarationNonansi"@ {
        NodeKind::ModuleDeclarationNonansi
    } else if name == "ModuleAnsiHeader"@ {
        NodeKind::ModuleAnsiHeader
    } else if name == "ModuleIdentifier"@ {
        NodeKind::ModuleIdentifier
    } else if name == "ListOfPortDeclarations"@ {
        NodeKind::ListOfPortDeclarations
    } else if name == "AnsiPortDeclaration"@ {
        NodeKind::AnsiPortDeclaration
    } else if name == "PortIdentifier"@ {
        NodeKind::PortIdentifier
    } else if name == "PortDirection"@ {
        NodeKind::PortDirection
    } else if name == "NonPortModuleItem"@ {
        NodeKind::NonPortModuleItem
    } else if name == "ConstantRange"@ {
        NodeKind::ConstantRange
    } else if name == "ContinuousAssign"@ {
        NodeKind::ContinuousAssign
    } else if name == "ContinuousAssignNet"@ {
        NodeKind::ContinuousAssignNet
    } else if name == "ContinuousAssignVariable"@ {
        NodeKind::ContinuousAssignVariable
    } else if name == "NetAssignment"@ {
        NodeKind::NetAssignment
    } else if name == "VariableAssignment"@ {
        NodeKind::VariableAssignment
    } else if name == "NetLvalue"@ {
        NodeKind::NetLvalue
    } else if name == "VariableLvalue"@ {
        NodeKind::VariableLvalue
    } else if name == "NetDeclaration"@ {
        NodeKind::NetDeclaration
    } else if name == "NetIdentifier"@ {
        NodeKind::NetIdentifier
    } else if name == "DataDeclaration"@ {
        NodeKind::DataDeclaration
    } else if name == "UnpackedDimension"@ {
        NodeKind::Dimension
    } else if name == "VariableDimension"@ {
        NodeKind::Dimension
    } else if name == "VariableIdentifier"@ {
        NodeKind::VariableIdentifier
    } else if name == "SimpleIdentifier"@ {
        NodeKind::SimpleIdentifier
    } else if name == "EscapedIdentifier"@ {
        NodeKind::EscapedIdentifier
    } else if name == "AlwaysConstruct"@ {
        NodeKind::AlwaysConstruct
    } else if name == "AlwaysKeyword"@ {
        NodeKind::AlwaysKeyword
    } else if name == "Statement"@ {
        NodeKind::Statement
    } else if name == "StatementOrNull"@ {
        NodeKind::StatementOrNull
    } else if name == "ProceduralTimingControlStatement"@ {
        NodeKind::ProceduralTimingControlStatement
    } else if name == "ProceduralTimingControl"@ {
        NodeKind::ProceduralTimingControl
    } else if name == "ConditionalStatement"@ {
        NodeKind::ConditionalStatement
    } else if name == "NonblockingAssignment"@ {
        NodeKind::ProceduralAssignment
    } else if name == "OperatorAssignment"@ {
        NodeKind::ProceduralAssignment
    } else if name == "ModuleInstantiation"@ {
        NodeKind::ModuleInstantiation
    } else if name == "HierarchicalInstance"@ {
        NodeKind::HierarchicalInstance
    } else if name == "NameOfInstance"@ {
        NodeKind::NameOfInstance
    } else if name == "OrderedPortConnection"@ {
        NodeKind::OrderedPortConnection
    } else if name == "NamedPortConnectionIdentifier"@ {
        NodeKind::NamedPortConnectionIdentifier
    } else if name == "Expression"@ {
        NodeKind::Expression
    } else if name == "ConstantExpression"@ {
        NodeKind::Expression
    } else if name == "ExpressionBinary"@ {
        NodeKind::Binary
    } else if name == "ConstantExpressionBinary"@ {
        NodeKind::Binary
    } else if name == "BinaryOperator"@ {
        NodeKind::BinaryOperator
    } else if name == "ExpressionUnary"@ {
        NodeKind::Unary
    } else if name == "ConstantExpressionUnary"@ {
        NodeKind::Unary
    } else if name == "UnaryOperator"@ {
        NodeKind::UnaryOperator
    } else if name == "ConditionalExpression"@ {
        NodeKind::Conditional
    } else if name == "CondPredicate"@ {
        NodeKind::CondPredicate
    } else if name == "ConstantExpressionTernary"@ {
        NodeKind::Ternary
    } else if name == "IncOrDecExpression"@ {
        NodeKind::OtherExpression
    } else if name == "ExpressionOperatorAssignment"@ {
        NodeKind::OtherExpression
    } else if name == "InsideExpression"@ {
        NodeKind::OtherExpression
    } else if name == "ConstantInsideExpression"@ {
        NodeKind::OtherExpression
    } else if name == "TaggedUnionExpression"@ {
        NodeKind::OtherExpression
    } else if name == "Concatenation"@ {
        NodeKind::Concatenation
    } else if name == "ConstantConcatenation"@ {
        NodeKind::Concatenation
    } else if name == "Primary"@ {
        NodeKind::Primary
    } else if name == "ConstantPrimary"@ {
        NodeKind::Primary
    } else if name == "PrimaryLiteral"@ {
        NodeKind::PrimaryLiteral
    } else if name == "PrimaryConcatenation"@ {
        NodeKind::PrimaryConcatenation
    } else if name == "ConstantPrimaryConcatenation"@ {
        NodeKind::PrimaryConcatenation
    } else if name == "PrimaryMintypmaxExpression"@ {
        NodeKind::Parenthesized
    } else if name == "ConstantPrimaryMintypmaxExpression"@ {
        NodeKind::Parenthesized
    } else if name == "PrimaryHierarchical"@ {
        NodeKind::PrimaryHierarchical
    } else if name == "ConstantPrimaryPsParameter"@ {
        NodeKind::PrimaryName
    } else if name == "ConstantPrimarySpecparam"@ {
        NodeKind::PrimaryName
    } else if name == "GenvarIdentifier"@ {
        NodeKind::PrimaryName
    } else if name == "ConstantPrimaryFormalPort"@ {
        NodeKind::PrimaryName
    } else if name == "ConstantPrimaryEnum"@ {
        NodeKind::PrimaryName
    } else if name == "HierarchicalIdentifier"@ {
        NodeKind::HierarchicalIdentifier
    } else if name == "MemberIdentifier"@ {
        NodeKind::MemberIdentifier
    } else if name == "Select"@ {
        NodeKind::Select
    } else if name == "BitSelect"@ {
        NodeKind::BitSelect
    } else if name == "PartSelectRange"@ {
        NodeKind::PartSelectRange
    } else if name == "IntegralNumber"@ {
        NodeKind::IntegralNumber
    } else if name == "UnbasedUnsizedLiteral"@ {
        NodeKind::UnbasedUnsizedLiteral
    } else if name == "WhiteSpace"@ {
        NodeKind::Blank
    } else if name == "Comment"@ {
        NodeKind::Blank
    } else if name == "NetDeclAssignment"@ {
        NodeKind::NetDeclAssignment
    } else if name == "DataDeclarationVariable"@ {
        NodeKind::DataDeclarationVariable
    } else if name == "VariableDeclAssignmentVariable"@ {
        NodeKind::VariableDeclAssignment
    } else if name == "DataType"@ {
        NodeKind::DataType
    } else if name == "DataTypeVector"@ {
        NodeKind::VectorType
    } else if name == "InterfacePortHeader"@ {
        NodeKind::InterfacePortHeader
    } else if name == "PackedDimension"@ {
        NodeKind::PackedDimension
    } else if name == "QueueDimension"@ {
        NodeKind::OtherDimension
    } else if name == "AssociativeDimension"@ {
        NodeKind::OtherDimension
    } else if name == "UnsizedDimension"@ {
        NodeKind::OtherDimension
    } else if name == "Delay2"@ {
        NodeKind::Delay
    } else if name == "Delay3"@ {
        NodeKind::Delay
    } else if name == "DelayControl"@ {
        NodeKind::Delay
    } else if name == "DelayValue"@ {
        NodeKind::Delay
    } else if name == "DelayOrEventControl"@ {
        NodeKind::Delay
    } else if name == "CycleDelay"@ {
        NodeKind::Delay
    } else if name == "DriveStrength"@ {
        NodeKind::Delay
    } else if name == "ChargeStrength"@ {
        NodeKind::Delay
    } else if name == "StatementItem"@ {
        NodeKind::StatementItem
    } else if name == "SeqBlock"@ {
        NodeKind::SeqBlock
    } else if name == "BlockItemDeclaration"@ {
        NodeKind::BlockItemDeclaration
    } else if name == "AssignmentOperator"@ {
        NodeKind::AssignmentOperator
    } else if name == "EventExpressionExpression"@ {
        NodeKind::Event
    } else if name == "EventExpressionSequence"@ {
        NodeKind::OtherEvent
    } else if name == "EdgeIdentifier"@ {
        NodeKind::EdgeIdentifier
    } else if name == "NamedPortConnectionAsterisk"@ {
        NodeKind::NamedPortConnectionAsterisk
    } else if name == "ParameterValueAssignment"@ {
        NodeKind::ParameterValueAssignment
    } else if name == "MintypmaxExpressionTernary"@ {
        NodeKind::MinTypMax
    } else if name == "ConstantMintypmaxExpressionTernary"@ {
        NodeKind::MinTypMax
    } else if name == "CondPattern"@ {
        NodeKind::OtherExpression
    } else if name == "InitialConstruct"@ {
        NodeKind::OtherItem
    } else if name == "FinalConstruct"@ {
        NodeKind::OtherItem
    } else if name == "GenerateRegion"@ {
        NodeKind::OtherItem
    } else if name == "LoopGenerateConstruct"@ {
        NodeKind::OtherItem
    } else if name == "ConditionalGenerateConstruct"@ {
        NodeKind::OtherItem
    } else if name == "GenerateBlock"@ {
        NodeKind::OtherItem
    } else if name == "SpecifyBlock"@ {
        NodeKind::OtherItem
    } else if name == "ModuleDeclaration"@ {
        NodeKind::OtherItem
    } else if name == "ProgramDeclaration"@ {
        NodeKind::OtherItem
    } else if name == "InterfaceDeclaration"@ {
        NodeKind::OtherItem
    } else if name == "FunctionDeclaration"@ {
        NodeKind::OtherItem
    } else if name == "TaskDeclaration"@ {
        NodeKind::OtherItem
    } else if name == "ClassDeclaration"@ {
        NodeKind::OtherItem
    } else if name == "CheckerDeclaration"@ {
        NodeKind::OtherItem
    } else if name == "CovergroupDeclaration"@ {
        NodeKind::OtherItem
    } else if name == "AssertionItem"@ {
        NodeKind::OtherItem
    } else if name == "BindDirective"@ {
        NodeKind::OtherItem
    } else if name == "ClockingDeclaration"@ {
        NodeKind::OtherItem
    } else if name == "GateInstantiation"@ {
        NodeKind::OtherItem
    } else {
        NodeKind::Other
    }
}

/// The kind of a node, by the name of the grammar rule that it stands for.
fn kind_named(name: &str) -> (r: NodeKind)
    ensures
        r == kind_of(name@),
{
    if same_text(name, "Locate") {
        NodeKind::Locate
    } else if same_text(name, "Symbol") {
        NodeKind::Symbol
    } else if same_text(name, "Keyword") {
        NodeKind::Keyword
    } else if same_text(name, "ModuleDeclarationAnsi") {
        NodeKind::ModuleDeclarationAnsi
    } else if same_text(name, "ModuleDeclarationNonansi") {
        NodeKind::ModuleDeclarationNonansi
    } else if same_text(name, "ModuleAnsiHeader") {
        NodeKind::ModuleAnsiHeader
    } else if same_text(name, "ModuleIdentifier") {
        NodeKind::ModuleIdentifier
    } else if same_text(name, "ListOfPortDeclarations") {
        NodeKind::ListOfPortDeclarations
    } else if same_text(name, "AnsiPortDeclaration") {
        NodeKind::AnsiPortDeclaration
    } else if same_text(name, "PortIdentifier") {
        NodeKind::PortIdentifier
    } else if same_text(name, "PortDirection") {
        NodeKind::PortDirection
    } else if same_text(name, "NonPortModuleItem") {
        NodeKind::NonPortModuleItem
    } else if same_text(name, "ConstantRange") {
        NodeKind::ConstantRange
    } else if same_text(name, "ContinuousAssign") {
        NodeKind::ContinuousAssign
    } else if same_text(name, "ContinuousAssignNet") {
        NodeKind::ContinuousAssignNet
    } else if same_text(name, "ContinuousAssignVariable") {
        NodeKind::ContinuousAssignVariable
    } else if same_text(name, "NetAssignment") {
        NodeKind::NetAssignment
    } else if same_text(name, "VariableAssignment") {
        NodeKind::VariableAssignment
    } else if same_text(name, "NetLvalue") {
        NodeKind::NetLvalue
    } else if same_text(name, "VariableLvalue") {
        NodeKind::VariableLvalue
    } else if same_text(name, "NetDeclaration") {
        NodeKind::NetDeclaration
    } else if same_text(name, "NetIdentifier") {
        NodeKind::NetIdentifier
    } else if same_text(name, "DataDeclaration") {
        NodeKind::DataDeclaration
    } else if same_text(name, "UnpackedDimension") {
        NodeKind::Dimension
    } else if same_text(name, "VariableDimension") {
        NodeKind::Dimension
    } else if same_text(name, "VariableIdentifier") {
        NodeKind::VariableIdentifier
    } else if same_text(name, "SimpleIdentifier") {
        NodeKind::SimpleIdentifier
    } else if same_text(name, "EscapedIdentifier") {
        NodeKind::EscapedIdentifier
    } else if same_text(name, "AlwaysConstruct") {
        NodeKind::AlwaysConstruct
    } else if same_text(name, "AlwaysKeyword") {
        NodeKind::AlwaysKeyword
    } else if same_text(name, "Statement") {
        NodeKind::Statement
    } else if same_text(name, "StatementOrNull") {
        NodeKind::StatementOrNull
    } else if same_text(name, "ProceduralTimingControlStatement") {
        NodeKind::ProceduralTimingControlStatement
    } else if same_text(name, "ProceduralTimingControl") {
        NodeKind::ProceduralTimingControl
    } else if same_text(name, "ConditionalStatement") {
        NodeKind::ConditionalStatement
    } else if same_text(name, "NonblockingAssignment") {
        NodeKind::ProceduralAssignment
    } else if same_text(name, "OperatorAssignment") {
        NodeKind::ProceduralAssignment
    } else if same_text(name, "ModuleInstantiation") {
        NodeKind::ModuleInstantiation
    } else if same_text(name, "HierarchicalInstance") {
        NodeKind::HierarchicalInstance
    } else if same_text(name, "NameOfInstance") {
        NodeKind::NameOfInstance
    } else if same_text(name, "OrderedPortConnection") {
        NodeKind::OrderedPortConnection
    } else if same_text(name, "NamedPortConnectionIdentifier") {
        NodeKind::NamedPortConnectionIdentifier
    } else if same_text(name, "Expression") {
        NodeKind::Expression
    } else if same_text(name, "ConstantExpression") {
        NodeKind::Expression
    } else if same_text(name, "ExpressionBinary") {
        NodeKind::Binary
    } else if same_text(name, "ConstantExpressionBinary") {
        NodeKind::Binary
    } else if same_text(name, "BinaryOperator") {
        NodeKind::BinaryOperator
    } else if same_text(name, "ExpressionUnary") {
        NodeKind::Unary
    } else if same_text(name, "ConstantExpressionUnary") {
        NodeKind::Unary
    } else if same_text(name, "UnaryOperator") {
        NodeKind::UnaryOperator
    } else if same_text(name, "ConditionalExpression") {
        NodeKind::Conditional
    } else if same_text(name, "CondPredicate") {
        NodeKind::CondPredicate
    } else if same_text(name, "ConstantExpressionTernary") {
        NodeKind::Ternary
    } else if same_text(name, "IncOrDecExpression") {
        NodeKind::OtherExpression
    } else if same_text(name, "ExpressionOperatorAssignment") {
        NodeKind::OtherExpression
    } else if same_text(name, "InsideExpression") {
        NodeKind::OtherExpression
    } else if same_text(name, "ConstantInsideExpression") {
        NodeKind::OtherExpression
    } else if same_text(name, "TaggedUnionExpression") {
        NodeKind::OtherExpression
    } else if same_text(name, "Concatenation") {
        NodeKind::Concatenation
    } else if same_text(name, "ConstantConcatenation") {
        NodeKind::Concatenation
    } else if same_text(name, "Primary") {
        NodeKind::Primary
    } else if same_text(name, "ConstantPrimary") {
        NodeKind::Primary
    } else if same_text(name, "PrimaryLiteral") {
        NodeKind::PrimaryLiteral
    } else if same_text(name, "PrimaryConcatenation") {
        NodeKind::PrimaryConcatenation
    } else if same_text(name, "ConstantPrimaryConcatenation") {
        NodeKind::PrimaryConcatenation
    } else if same_text(name, "PrimaryMintypmaxExpression") {
        NodeKind::Parenthesized
    } else if same_text(name, "ConstantPrimaryMintypmaxExpression") {
        NodeKind::Parenthesized
    } else if same_text(name, "PrimaryHierarchical") {
        NodeKind::PrimaryHierarchical
    } else if same_text(name, "ConstantPrimaryPsParameter") {
        NodeKind::PrimaryName
    } else if same_text(name, "ConstantPrimarySpecparam") {
        NodeKind::PrimaryName
    } else if same_text(name, "GenvarIdentifier") {
        NodeKind::PrimaryName
    } else if same_text(name, "ConstantPrimaryFormalPort") {
        NodeKind::PrimaryName
    } else if same_text(name, "ConstantPrimaryEnum") {
        NodeKind::PrimaryName
    } else if same_text(name, "HierarchicalIdentifier") {
        NodeKind::HierarchicalIdentifier
    } else if same_text(name, "MemberIdentifier") {
        NodeKind::MemberIdentifier
    } else if same_text(name, "Select") {
        NodeKind::Select
    } else if same_text(name, "BitSelect") {
        NodeKind::BitSelect
    } else if same_text(name, "PartSelectRange") {
        NodeKind::PartSelectRange
    } else if same_text(name, "IntegralNumber") {
        NodeKind::IntegralNumber
    } else if same_text(name, "UnbasedUnsizedLiteral") {
        NodeKind::UnbasedUnsizedLiteral
    } else if same_text(name, "WhiteSpace") {
        NodeKind::Blank
    } else if same_text(name, "Comment") {
        NodeKind::Blank
    } else if same_text(name, "NetDeclAssignment") {
        NodeKind::NetDeclAssignment
    } else if same_text(name, "DataDeclarationVariable") {
        NodeKind::DataDeclarationVariable
    } else if same_text(name, "VariableDeclAssignmentVariable") {
        NodeKind::VariableDeclAssignment
    } else if same_text(name, "DataType") {
        NodeKind::DataType
    } else if same_text(name, "DataTypeVector") {
        NodeKind::VectorType
    } else if same_text(name, "InterfacePortHeader") {
        NodeKind::InterfacePortHeader
    } else if same_text(name, "PackedDimension") {
        NodeKind::PackedDimension
    } else if same_text(name, "QueueDimension") {
        NodeKind::OtherDimension
    } else if same_text(name, "AssociativeDimension") {
        NodeKind::OtherDimension
    } else if same_text(name, "UnsizedDimension") {
        NodeKind::OtherDimension
    } else if same_text(name, "Delay2") {
        NodeKind::Delay
    } else if same_text(name, "Delay3") {
        NodeKind::Delay
    } else if same_text(name, "DelayControl") {
        NodeKind::Delay
    } else if same_text(name, "DelayValue") {
        NodeKind::Delay
    } else if same_text(name, "DelayOrEventControl") {
        NodeKind::Delay
    } else if same_text(name, "CycleDelay") {
        NodeKind::Delay
    } else if same_text(name, "DriveStrength") {
        NodeKind::Delay
    } else if same_text(name, "ChargeStrength") {
        NodeKind::Delay
    } else if same_text(name, "StatementItem") {
        NodeKind::StatementItem
    } else if same_text(name, "SeqBlock") {
        NodeKind::SeqBlock
    } else if same_text(name, "BlockItemDeclaration") {
        NodeKind::BlockItemDeclaration
    } else if same_text(name, "AssignmentOperator") {
        NodeKind::AssignmentOperator
    } else if same_text(name, "EventExpressionExpression") {
        NodeKind::Event
    } else if same_text(name, "EventExpressionSequence") {
        NodeKind::OtherEvent
    } else if same_text(name, "EdgeIdentifier") {
        NodeKind::EdgeIdentifier
    } else if same_text(name, "NamedPortConnectionAsterisk") {
        NodeKind::NamedPortConnectionAsterisk
    } else if same_text(name, "ParameterValueAssignment") {
        NodeKind::ParameterValueAssignment
    } else if same_text(name, "MintypmaxExpressionTernary") {
        NodeKind::MinTypMax
    } else if same_text(name, "ConstantMintypmaxExpressionTernary") {
        NodeKind::MinTypMax
    } else if same_text(name, "CondPattern") {
        NodeKind::OtherExpression
    } else if same_text(name, "InitialConstruct") {
        NodeKind::OtherItem
    } else if same_text(name, "FinalConstruct") {
        NodeKind::OtherItem
    } else if same_text(name, "GenerateRegion") {
        NodeKind::OtherItem
    } else if same_text(name, "LoopGenerateConstruct") {
        NodeKind::OtherItem
    } else if same_text(name, "ConditionalGenerateConstruct") {
        NodeKind::OtherItem
    } else if same_text(name, "GenerateBlock") {
        NodeKind::OtherItem
    } else if same_text(name, "SpecifyBlock") {
        NodeKind::OtherItem
    } else if same_text(name, "ModuleDeclaration") {
        NodeKind::OtherItem
    } else if same_text(name, "ProgramDeclaration") {
        NodeKind::OtherItem
    } else if same_text(name, "InterfaceDeclaration") {
        NodeKind::OtherItem
    } else if same_text(name, "FunctionDeclaration") {
        NodeKind::OtherItem
    } else if same_text(name, "TaskDeclaration") {
        NodeKind::OtherItem
    } else if same_text(name, "ClassDeclaration") {
        NodeKind::OtherItem
    } else if same_text(name, "CheckerDeclaration") {
        NodeKind::OtherItem
    } else if same_text(name, "CovergroupDeclaration") {
        NodeKind::OtherItem
    } else if same_text(name, "AssertionItem") {
        NodeKind::OtherItem
    } else if same_text(name, "BindDirective") {
        NodeKind::OtherItem
    } else if same_text(name, "ClockingDeclaration") {
        NodeKind::OtherItem
    } else if same_text(name, "GateInstantiation") {
        NodeKind::OtherItem
    } else {
        NodeKind::Other
    }
}

/// A node: its kind, the place behind its last descendant, and, of a token, the
/// part of the source text that it is.
#[derive(Clone, Copy, PartialEq, Eq, Structural, Debug)]
pub struct CstNode {
    pub kind: NodeKind,
    pub end: usize,
    pub span: Span,
}

/// A step of the walk through a syntax tree: a node begins or ends. A node that
/// begins comes with the name of the grammar rule that it stands for, a token with
/// its offset and its length too, in bytes.
pub struct CstEvent {
    pub enter: bool,
    pub name: String,
    pub offset: usize,
    pub len: usize,
}

/// What a step says: whether a node begins, the name of its rule, and the offset
/// and the length of a token.
pub type EventView = (bool, Seq<char>, usize, usize);

impl View for CstEvent {
    type V = EventView;

    open spec fn view(&self) -> EventView {
        (self.enter, self.name@, self.offset, self.len)
    }
}

impl CstEvent {
    /// The begin of a node.
    pub fn entry(name: String) -> (e: CstEvent)
        ensures
            e@ == (true, name@, 0usize, 0usize),
    {
        CstEvent { enter: true, name, offset: 0, len: 0 }
    }

    /// The begin of a token.
    pub fn token(offset: usize, len: usize) -> (e: CstEvent)
        ensures
            e@ == (true, "Locate"@, offset, len),
    {
        CstEvent { enter: true, name: "Locate".to_owned(), offset, len }
    }

    /// The end of a node or a token.
    pub fn exit() -> (e: CstEvent)
        ensures
            e@ == (false, ""@, 0usize, 0usize),
    {
        CstEvent { enter: false, name: "".to_owned(), offset: 0, len: 0 }
    }
}

/// What some steps say.
pub open spec fn steps(events: Seq<CstEvent>) -> Seq<EventView> {
    events.map_values(|e: CstEvent| e@)
}

/// The number of bytes of a character.
pub open spec fn byte_len(c: char) -> nat {
    if (c as int) < 0x80 {
        1
    } else if (c as int) < 0x800 {
        2
    } else if (c as int) < 0x10000 {
        3
    } else {
        4
    }
}

/// The byte at which the character in place `k` begins.
pub open spec fn byte_pos(src: Seq<char>, k: int) -> nat
    decreases k,
{
    if k <= 0 {
        0
    } else {
        byte_pos(src, k - 1) + byte_len(src[k - 1])
    }
}

/// Whether the character in place `k` begins at the byte `offset`.
pub open spec fn begins_at(src: Seq<char>, offset: nat, k: int) -> bool {
    0 <= k <= src.len() && byte_pos(src, k) == offset
}

/// The place of the character that begins at the byte `offset`.
pub open spec fn char_index(src: Seq<char>, offset: nat) -> Option<int> {
    if exists|k: int| #[trigger] begins_at(src, offset, k) {
        Some(choose|k: int| #[trigger] begins_at(src, offset, k))
    } else {
        None
    }
}

/// The part of the source text that a step speaks of; only tokens have one.
pub open spec fn span_of(src: Seq<char>, e: EventView) -> Option<Span> {
    if kind_of(e.1) != NodeKind::Locate {
        Some(Span { from: 0, to: 0 })
    } else {
        match (char_index(src, e.2 as nat), char_index(src, e.2 as nat + e.3 as nat)) {
            (Some(from), Some(to)) => Some(Span { from: from as usize, to: to as usize }),
            _ => None,
        }
    }
}

/// The nodes that some first steps gave, and those of them that have not ended.
pub struct Walk {
    pub nodes: Seq<CstNode>,
    pub open: Seq<int>,
}

/// The kind of a node that begins: what white space and comments are made of is
/// blank, too.
pub open spec fn entered_kind(w: Walk, e: EventView) -> NodeKind {
    if kind_of(e.1) == NodeKind::Locate && w.open.len() > 0 && w.nodes[w.open.last()].kind
        == NodeKind::Blank {
        NodeKind::Blank
    } else {
        kind_of(e.1)
    }
}

/// Where the first `n` steps lead; `None` where they make no sense: a token
/// outside the source text, or an end without a beginning.
pub open spec fn walk(src: Seq<char>, events: Seq<EventView>, n: nat) -> Option<Walk>
    decreases n,
{
    if n == 0 {
        Some(Walk { nodes: Seq::empty(), open: Seq::empty() })
    } else {
        let e = events[n - 1];
        match walk(src, events, (n - 1) as nat) {
            None => None,
            Some(w) => if e.0 {
                match span_of(src, e) {
                    None => None,
                    Some(span) => Some(
                        Walk {
                            nodes: w.nodes.push(
                                CstNode { kind: entered_kind(w, e), end: 0, span },
                            ),
                            open: w.open.push(w.nodes.len() as int),
                        },
                    ),
                }
            } else if w.open.len() == 0 {
                None
            } else {
                let top = w.open.last();
                Some(
                    Walk {
                        nodes: w.nodes.update(
                            top,
                            CstNode { end: w.nodes.len() as usize, ..w.nodes[top] },
                        ),
                        open: w.open.drop_last(),
                    },
                )
            },
        }
    }
}

/// Whether the tokens come in the order of the source text.
pub open spec fn in_order(nodes: Seq<CstNode>) -> bool {
    forall|i: int, j: int|
        0 <= i < j < nodes.len() && (#[trigger] nodes[i]).kind == NodeKind::Locate && (
        #[trigger] nodes[j]).kind == NodeKind::Locate ==> nodes[i].span.to <= nodes[j].span.from
}

/// The nodes that a complete walk through a tree gives.
pub open spec fn nodes_of(src: Seq<char>, events: Seq<EventView>) -> Option<Seq<CstNode>> {
    match walk(src, events, events.len()) {
        None => None,
        Some(w) => if w.open.len() == 0 && in_order(w.nodes) {
            Some(w.nodes)
        } else {
            None
        },
    }
}

/// Whether each of the nodes ends behind its beginning and within what holds it.
pub open spec fn nested(nodes: Seq<CstNode>) -> bool {
    &&& forall|i: int| 0 <= i < nodes.len() ==> i < (#[trigger] nodes[i]).end <= nodes.len()
    &&& forall|i: int, j: int|
        0 <= i < j < nodes.len() && j < (#[trigger] nodes[i]).end ==> (#[trigger] nodes[j]).end
            <= nodes[i].end
}

/// Whether every token lies within the source text.
pub open spec fn within(nodes: Seq<CstNode>, src: Seq<char>) -> bool {
    forall|i: int|
        0 <= i < nodes.len() && (#[trigger] nodes[i]).kind == NodeKind::Locate
            ==> nodes[i].span.fits(src)
}

/// What every syntax tree satisfies.
#[verifier::opaque]
pub open spec fn well_formed(nodes: Seq<CstNode>, src: Seq<char>) -> bool {
    nested(nodes) && within(nodes, src) && in_order(nodes)
}

/// A syntax tree, with the text that it is of and the characters of that text.
pub struct SyntaxTree {
    pub text: String,
    pub source: Vec<char>,
    pub nodes: Vec<CstNode>,
}

/// What holds of the nodes on the way through a tree.
spec fn walk_ok(src: Seq<char>, w: Walk) -> bool {
    &&& within(w.nodes, src)
    &&& forall|k: int| 0 <= k < w.open.len() ==> 0 <= #[trigger] w.open[k] < w.nodes.len()
    &&& forall|k: int, l: int|
        0 <= k < l < w.open.len() ==> #[trigger] w.open[k] < #[trigger] w.open[l]
    &&& forall|i: int|
        0 <= i < w.nodes.len() && !w.open.contains(i) ==> i < (#[trigger] w.nodes[i]).end
            <= w.nodes.len()
    &&& forall|i: int, j: int|
        0 <= i < j < w.nodes.len() && !w.open.contains(i) && j < (#[trigger] w.nodes[i]).end
            ==> !w.open.contains(j) && (#[trigger] w.nodes[j]).end <= w.nodes[i].end
}

/// Later characters begin at later bytes.
proof fn lemma_byte_pos(src: Seq<char>, i: int, j: int)
    requires
        0 <= i < j <= src.len(),
    ensures
        byte_pos(src, i) < byte_pos(src, j),
    decreases j,
{
    if i < j - 1 {
        lemma_byte_pos(src, i, j - 1);
    }
}

/// At most one character begins at a byte.
proof fn lemma_char_index(src: Seq<char>, offset: nat, k: int)
    requires
        begins_at(src, offset, k),
    ensures
        char_index(src, offset) == Some(k),
{
    let c = choose|c: int| #[trigger] begins_at(src, offset, c);
    if c < k {
        lemma_byte_pos(src, c, k);
    } else if k < c {
        lemma_byte_pos(src, k, c);
    }
}

/// Where a node begins, the walk stays in order.
proof fn lemma_enter_ok(src: Seq<char>, w: Walk, node: CstNode)
    requires
        walk_ok(src, w),
        node.kind == NodeKind::Locate ==> node.span.fits(src),
    ensures
        walk_ok(
            src,
            (Walk { nodes: w.nodes.push(node), open: w.open.push(w.nodes.len() as int) }),
        ),
{
    let n = Walk { nodes: w.nodes.push(node), open: w.open.push(w.nodes.len() as int) };
    assert forall|i: int| 0 <= i < w.nodes.len() implies (#[trigger] n.open.contains(i)
        <==> w.open.contains(i)) by {
        if w.open.contains(i) {
            let k = w.open.index_of(i);
            assert(n.open[k] == i);
        }
        if n.open.contains(i) {
            let k = n.open.index_of(i);
            if k < w.open.len() {
                assert(w.open[k] == i);
            }
        }
    }
    assert(n.open[w.open.len() as int] == w.nodes.len());
    assert(n.open.contains(w.nodes.len() as int));
}

/// Where a node ends, the walk stays in order.
proof fn lemma_leave_ok(src: Seq<char>, w: Walk, node: CstNode)
    requires
        walk_ok(src, w),
        w.open.len() > 0,
        node.kind == w.nodes[w.open.last()].kind,
        node.span == w.nodes[w.open.last()].span,
        node.end == w.nodes.len(),
    ensures
        walk_ok(
            src,
            (Walk { nodes: w.nodes.update(w.open.last(), node), open: w.open.drop_last() }),
        ),
{
    let top = w.open.last();
    let n = Walk { nodes: w.nodes.update(top, node), open: w.open.drop_last() };
    assert(w.open[w.open.len() - 1] == top);
    assert forall|i: int| 0 <= i < w.nodes.len() implies (#[trigger] n.open.contains(i) <==> (
    w.open.contains(i) && i != top)) by {
        if w.open.contains(i) && i != top {
            let k = w.open.index_of(i);
            assert(n.open[k] == i);
        }
        if n.open.contains(i) {
            let k = n.open.index_of(i);
            assert(w.open[k] == i);
            assert(w.open[k] < w.open[w.open.len() - 1]);
        }
    }
    assert forall|i: int| top < i < w.nodes.len() implies !#[trigger] w.open.contains(i) by {
        if w.open.contains(i) {
            let k = w.open.index_of(i);
            if k < w.open.len() - 1 {
                assert(w.open[k] < w.open[w.open.len() - 1]);
            }
        }
    }
    assert(w.open.contains(top));
    assert forall|i: int| 0 <= i < n.nodes.len() && !n.open.contains(i) implies i < (
    #[trigger] n.nodes[i]).end <= n.nodes.len() by {
        if i != top {
            assert(n.nodes[i] == w.nodes[i]);
            assert(!w.open.contains(i));
        }
    }
    assert forall|i: int, j: int|
        0 <= i < j < n.nodes.len() && !n.open.contains(i) && j < (
        #[trigger] n.nodes[i]).end implies !n.open.contains(j) && (#[trigger] n.nodes[j]).end
        <= n.nodes[i].end by {
        if i == top {
            assert(!w.open.contains(j));
            assert(n.nodes[j] == w.nodes[j]);
            assert(w.nodes[j].end <= w.nodes.len());
        } else {
            assert(!w.open.contains(i));
            assert(n.nodes[i] == w.nodes[i]);
            assert(j < w.nodes[i].end);
            assert(!w.open.contains(j) && w.nodes[j].end <= w.nodes[i].end);
            assert(j != top);
        }
    }
    assert forall|i: int| 0 <= i < n.nodes.len() && (#[trigger] n.nodes[i]).kind
        == NodeKind::Locate implies n.nodes[i].span.fits(src) by {
        assert(w.nodes[i].kind == n.nodes[i].kind);
    }
}

/// What makes no sense at some step makes none in the end.
proof fn lemma_walk_none(src: Seq<char>, events: Seq<EventView>, n: nat, m: nat)
    requires
        n <= m,
        walk(src, events, n) is None,
    ensures
        walk(src, events, m) is None,
    decreases m,
{
    if n < m {
        lemma_walk_none(src, events, n, (m - 1) as nat);
    }
}

/// The number of bytes of a character.
fn bytes_of(c: char) -> (n: u128)
    ensures
        n == byte_len(c),
        1 <= n <= 4,
{
    let code: u32 = c as u32;
    if code < 0x80 {
        1
    } else if code < 0x800 {
        2
    } else if code < 0x10000 {
        3
    } else {
        4
    }
}

/// The bytes at which the characters of a text begin, and the one behind the
/// last of them.
fn byte_table(src: &Vec<char>) -> (r: Vec<u128>)
    ensures
        r@.len() == src@.len() + 1,
        forall|k: int| 0 <= k <= src@.len() ==> #[trigger] r@[k] == byte_pos(src@, k),
{
    let mut table: Vec<u128> = Vec::new();
    let mut pos: u128 = 0;
    table.push(0);
    assert(src@.len() == src.len());
    let mut i: usize = 0;
    while i < src.len()
        invariant
            i <= src@.len(),
            src@.len() <= usize::MAX,
            pos == byte_pos(src@, i as int),
            pos <= 4 * i,
            table@.len() == i + 1,
            forall|k: int| 0 <= k <= i ==> #[trigger] table@[k] == byte_pos(src@, k),
        decreases src@.len() - i,
    {
        let n: u128 = bytes_of(src[i]);
        pos = pos + n;
        table.push(pos);
        i += 1;
    }
    table
}

/// The place of the character that begins at a byte.
fn find_char(src: &Vec<char>, table: &Vec<u128>, offset: u128) -> (r: Option<usize>)
    requires
        table@.len() == src@.len() + 1,
        forall|k: int| 0 <= k <= src@.len() ==> #[trigger] table@[k] == byte_pos(src@, k),
    ensures
        r is Some <==> char_index(src@, offset as nat) is Some,
        r matches Some(k) ==> char_index(src@, offset as nat) == Some(k as int) && k <= src@.len(),
{
    let mut lo: usize = 0;
    let mut hi: usize = src.len();
    while lo < hi
        invariant
            lo <= hi <= src@.len(),
            table@.len() == src@.len() + 1,
            forall|k: int| 0 <= k <= src@.len() ==> #[trigger] table@[k] == byte_pos(src@, k),
            forall|k: int| #[trigger] begins_at(src@, offset as nat, k) ==> lo <= k <= hi,
        decreases hi - lo,
    {
        let mid: usize = lo + (hi - lo) / 2;
        assert(table@[mid as int] == byte_pos(src@, mid as int));
        if table[mid] < offset {
            proof {
                assert forall|k: int| #[trigger] begins_at(src@, offset as nat, k) implies mid + 1
                    <= k <= hi by {
                    if k < mid {
                        lemma_byte_pos(src@, k, mid as int);
                    }
                }
            }
            lo = mid + 1;
        } else {
            proof {
                assert forall|k: int| #[trigger] begins_at(src@, offset as nat, k) implies lo <= k
                    <= mid by {
                    if k > mid {
                        lemma_byte_pos(src@, mid as int, k);
                    }
                }
            }
            hi = mid;
        }
    }
    assert(table@[lo as int] == byte_pos(src@, lo as int));
    if table[lo] == offset {
        proof {
            assert(begins_at(src@, offset as nat, lo as int));
            lemma_char_index(src@, offset as nat, lo as int);
        }
        Some(lo)
    } else {
        None
    }
}

impl SyntaxTree {
    /// Whether the tree is one of its source text.
    pub open spec fn wf(&self) -> bool {
        well_formed(self.nodes@, self.source@) && self.text@ == self.source@
    }

    /// The tree that a walk describes, where it makes sense.
    pub fn from_events(source: &str, events: &Vec<CstEvent>) -> (r: Option<SyntaxTree>)
        ensures
            r is Some <==> nodes_of(source@, steps(events@)) is Some,
            r matches Some(t) ==> t.wf() && t.source@ == source@ && nodes_of(
                source@,
                steps(events@),
            ) == Some(t.nodes@),
    {
        let src = chars_of(source);
        let table = byte_table(&src);
        let ghost all = steps(events@);
        let mut nodes: Vec<CstNode> = Vec::new();
        let mut open: Vec<usize> = Vec::new();
        let mut i: usize = 0;
        assert(open@.map_values(|k: usize| k as int) =~= Seq::<int>::empty());
        while i < events.len()
            invariant
                src@ == source@,
                table@.len() == src@.len() + 1,
                forall|k: int| 0 <= k <= src@.len() ==> #[trigger] table@[k] == byte_pos(src@, k),
                all == steps(events@),
                all.len() == events@.len(),
                i <= events@.len(),
                walk(src@, all, i as nat) == Some(
                    (Walk { nodes: nodes@, open: open@.map_values(|k: usize| k as int) }),
                ),
                walk_ok(
                    src@,
                    (Walk { nodes: nodes@, open: open@.map_values(|k: usize| k as int) }),
                ),
            decreases events@.len() - i,
        {
            let e = &events[i];
            let ghost w = Walk { nodes: nodes@, open: open@.map_values(|k: usize| k as int) };
            assert(all[i as int] == e@);
            if e.enter {
                let kind = kind_named(e.name.as_str());
                let mut span = Span { from: 0, to: 0 };
                if kind == NodeKind::Locate {
                    let from = find_char(&src, &table, e.offset as u128);
                    let to = find_char(&src, &table, e.offset as u128 + e.len as u128);
                    match (from, to) {
                        (Some(from), Some(to)) => {
                            proof {
                                assert(begins_at(src@, e.offset as nat, from as int)) by {
                                    lemma_chosen(src@, e.offset as nat);
                                }
                                assert(begins_at(src@, e.offset as nat + e.len as nat, to as int))
                                    by {
                                    lemma_chosen(src@, e.offset as nat + e.len as nat);
                                }
                                if to < from {
                                    lemma_byte_pos(src@, to as int, from as int);
                                }
                            }
                            span = Span { from, to };
                        },
                        _ => {
                            proof {
                                lemma_walk_none(src@, all, (i + 1) as nat, all.len());
                            }
                            return None;
                        },
                    }
                }
                let depth: usize = open.len();
                let kind = if kind == NodeKind::Locate && depth > 0 && nodes[open[depth
                    - 1]].kind == NodeKind::Blank {
                    NodeKind::Blank
                } else {
                    kind
                };
                proof {
                    if depth > 0 {
                        assert(w.open[depth - 1] == open@[depth - 1]);
                    }
                    lemma_enter_ok(src@, w, CstNode { kind, end: 0, span });
                }
                open.push(nodes.len());
                nodes.push(CstNode { kind, end: 0, span });
                assert(open@.map_values(|k: usize| k as int) =~= w.open.push(w.nodes.len() as int));
            } else {
                let n: usize = open.len();
                if n == 0 {
                    proof {
                        lemma_walk_none(src@, all, (i + 1) as nat, all.len());
                    }
                    return None;
                }
                let top: usize = open[n - 1];
                assert(w.open[n - 1] == top);
                let node = CstNode { kind: nodes[top].kind, end: nodes.len(), span: nodes[top].span };
                proof {
                    lemma_leave_ok(src@, w, node);
                }
                nodes.set(top, node);
                let _ = open.pop();
                assert(open@.map_values(|k: usize| k as int) =~= w.open.drop_last());
            }
            i += 1;
        }
        if open.len() != 0 {
            return None;
        }
        let ghost w = Walk { nodes: nodes@, open: open@.map_values(|k: usize| k as int) };
        proof {
            assert(nested(nodes@)) by {
                assert forall|k: int| !w.open.contains(k) by {}
            }
        }
        let mut reached: usize = 0;
        let mut k: usize = 0;
        while k < nodes.len()
            invariant
                k <= nodes@.len(),
                within(nodes@, src@),
                nested(nodes@),
                forall|a: int|
                    0 <= a < k && (#[trigger] nodes@[a]).kind == NodeKind::Locate
                        ==> nodes@[a].span.to <= reached,
                in_order(nodes@.take(k as int)),
                src@ == source@,
                all == steps(events@),
                walk(src@, all, all.len()) matches Some(v) && v.nodes == nodes@,
                reached > 0 ==> exists|a: int|
                    0 <= a < k && (#[trigger] nodes@[a]).kind == NodeKind::Locate
                        && nodes@[a].span.to == reached,
            decreases nodes@.len() - k,
        {
            proof {
                let t = nodes@.take(k as int);
                let u = nodes@.take(k + 1);
                assert forall|a: int| 0 <= a < k implies #[trigger] u[a] == t[a] by {}
                assert(u[k as int] == nodes@[k as int]);
            }
            if nodes[k].kind == NodeKind::Locate {
                if nodes[k].span.from < reached {
                    proof {
                        let a = choose|a: int|
                            0 <= a < k && (#[trigger] nodes@[a]).kind == NodeKind::Locate
                                && nodes@[a].span.to == reached;
                        assert(nodes@[k as int].kind == NodeKind::Locate);
                        assert(!in_order(nodes@));
                    }
                    return None;
                }
                reached = nodes[k].span.to;
            }
            k += 1;
        }
        assert(nodes@.take(k as int) =~= nodes@);
        proof {
            reveal(well_formed);
        }
        Some(SyntaxTree { text: source.to_owned(), source: src, nodes })
    }
}

/// The place that a byte is said to be at is one at which it is.
proof fn lemma_chosen(src: Seq<char>, offset: nat)
    requires
        char_index(src, offset) is Some,
    ensures
        begins_at(src, offset, char_index(src, offset)->0),
{
}

} // verus!
