use vstd::prelude::*;

verus! {

/// One node of the statement tree. The six payload-free variants are the
/// primitive instructions; `BracketsStmt` is the loop construct, owning its
/// body as an ordered sequence of statements (a strict tree, no sharing).
#[derive(Debug, PartialEq, Eq)]
pub enum Statement {
    IncPtrStmt,
    DecPtrStmt,
    IncValStmt,
    DecValStmt,
    OutputStmt,
    InputStmt,
    BracketsStmt(Vec<Statement>),
}

/// A successfully parsed program: the top-level ordered statement sequence,
/// executed exactly once, start to finish.
#[derive(Debug, PartialEq, Eq)]
pub struct Program {
    pub body: Vec<Statement>,
}

/// Mathematical model of one statement: the same tree, with loop bodies as
/// `Seq`. Contracts about parsing and execution are stated over this type.
pub enum SpecStmt {
    IncPtr,
    DecPtr,
    IncVal,
    DecVal,
    Output,
    Input,
    Loop(Seq<SpecStmt>),
}

/// The model of an executable statement tree.
pub open spec fn stmt_view(s: Statement) -> SpecStmt
    decreases s,
{
    match s {
        Statement::IncPtrStmt => SpecStmt::IncPtr,
        Statement::DecPtrStmt => SpecStmt::DecPtr,
        Statement::IncValStmt => SpecStmt::IncVal,
        Statement::DecValStmt => SpecStmt::DecVal,
        Statement::OutputStmt => SpecStmt::Output,
        Statement::InputStmt => SpecStmt::Input,
        Statement::BracketsStmt(body) => SpecStmt::Loop(stmts_view(body@)),
    }
}

/// The model of a sequence of executable statements, element by element.
pub open spec fn stmts_view(ss: Seq<Statement>) -> Seq<SpecStmt>
    decreases ss,
{
    if ss.len() == 0 {
        Seq::empty()
    } else {
        seq![stmt_view(ss[0])] + stmts_view(ss.drop_first())
    }
}

/// `stmts_view` maps a sequence element by element.
pub proof fn lemma_stmts_view_elems(ss: Seq<Statement>)
    ensures
        stmts_view(ss).len() == ss.len(),
        forall|i: int| 0 <= i < ss.len() ==> stmts_view(ss)[i] == stmt_view(ss[i]),
    decreases ss,
{
    if ss.len() > 0 {
        lemma_stmts_view_elems(ss.drop_first());
        assert forall|i: int| 0 <= i < ss.len() implies stmts_view(ss)[i] == stmt_view(ss[i]) by {
            if i > 0 {
                assert(stmts_view(ss)[i] == stmts_view(ss.drop_first())[i - 1]);
                assert(ss.drop_first()[i - 1] == ss[i]);
            }
        }
    }
}

/// Appending one statement appends its model.
pub proof fn lemma_stmts_view_push(ss: Seq<Statement>, s: Statement)
    ensures
        stmts_view(ss.push(s)) == stmts_view(ss).push(stmt_view(s)),
{
    lemma_stmts_view_elems(ss);
    lemma_stmts_view_elems(ss.push(s));
    assert(stmts_view(ss.push(s)) =~= stmts_view(ss).push(stmt_view(s)));
}

/// Number of statements in a tree: every node counts one, and a loop node
/// additionally counts its body, recursively.
pub open spec fn count_stmt(s: SpecStmt) -> nat
    decreases s,
{
    match s {
        SpecStmt::Loop(body) => 1 + count_stmts(body),
        _ => 1,
    }
}

/// Total statement count of a sequence of trees.
pub open spec fn count_stmts(ss: Seq<SpecStmt>) -> nat
    decreases ss,
{
    if ss.len() == 0 {
        0
    } else {
        count_stmt(ss[0]) + count_stmts(ss.drop_first())
    }
}

/// Appending one tree adds its count.
pub proof fn lemma_count_stmts_push(ss: Seq<SpecStmt>, s: SpecStmt)
    ensures
        count_stmts(ss.push(s)) == count_stmts(ss) + count_stmt(s),
    decreases ss,
{
    assert(ss.push(s).len() == ss.len() + 1);
    assert(count_stmts(ss.push(s)) == count_stmt(ss.push(s)[0]) + count_stmts(
        ss.push(s).drop_first(),
    ));
    if ss.len() == 0 {
        assert(ss.push(s)[0] == s);
        assert(ss.push(s).drop_first() =~= Seq::<SpecStmt>::empty());
    } else {
        assert(ss.push(s)[0] == ss[0]);
        assert(ss.push(s).drop_first() =~= ss.drop_first().push(s));
        lemma_count_stmts_push(ss.drop_first(), s);
    }
}

} // verus!
