use wat_lexer::ast::types::{Limits, MemType, Mut};
use wat_lexer::code::module::{
    Export, ExportDesc, FuncIndex, Import, ImportDesc, Memory, Start, Table,
};

#[test]
fn limits_and_memory() {
    let limits = Limits { min: 1, max: Some(2) };
    let memory = Memory { memtype: MemType { limits } };
    assert_eq!(memory.memtype.limits.min, 1);
    assert_eq!(memory.memtype.limits.max, Some(2));
    assert_eq!(memory, Memory { memtype: MemType { limits: Limits { min: 1, max: Some(2) } } });
    assert_ne!(limits, Limits { min: 1, max: None });
}

#[test]
fn mutability() {
    assert_ne!(Mut::Const, Mut::Var);
    assert_eq!(Mut::Var.clone(), Mut::Var);
}

#[test]
fn imports_and_exports() {
    let index: FuncIndex = 3;
    let import = Import {
        module: "env".to_string(),
        name: "print".to_string(),
        desc: ExportDesc::Func(index),
    };
    assert_eq!(import.clone(), import);
    assert_ne!(ImportDesc::Func(3), ImportDesc::Table(3));
    let export = Export { name: "main".to_string(), desc: ExportDesc::Func(index) };
    assert_eq!(export.name, "main");
    assert_eq!(export.desc, ExportDesc::Func(3));
    assert_ne!(ExportDesc::Mem(0), ExportDesc::Global(0));
}

#[test]
fn start_and_table() {
    assert_eq!(Start { func: 7 }.func, 7);
    assert_eq!(Table {}, Table {});
}
