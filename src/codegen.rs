use crate::item::{FnArgView, Item, ItemKind, ItemView, Ty, TyView};
use crate::util::{Span, Spanned};
use vstd::prelude::*;
use vstd::string::StringExecFns;

verus! {

/// Why items could not be turned into C.
#[derive(Debug, Clone, Copy, PartialEq, Eq, Structural)]
pub enum CodegenError {
    /// An item named `main` declares parameters.
    IncorrectMain,
}

/// The C spelling of a declared type: `void` when there is none, and an `optional_` prefix for
/// a nullable one.
pub open spec fn c_type_text(ty: Option<TyView>) -> Seq<char> {
    match ty {
        None => "void"@,
        Some(t) => if t.optional {
            "optional_"@ + t.ident.value
        } else {
            t.ident.value
        },
    }
}

/// One C parameter: its type, a space, its name.
pub open spec fn arg_text(a: FnArgView) -> Seq<char> {
    c_type_text(Some(a.ty)) + " "@ + a.ident.value
}

/// The C parameters joined by `, `.
pub open spec fn args_text(args: Seq<FnArgView>) -> Seq<char>
    decreases args.len(),
{
    if args.len() == 0 {
        Seq::empty()
    } else if args.len() == 1 {
        arg_text(args[0])
    } else {
        args_text(args.drop_last()) + ", "@ + arg_text(args.last())
    }
}

pub open spec fn is_main(item: ItemView) -> bool {
    item.ident.value == "main"@
}

/// The C text of one function item: `main` becomes a program that returns 0, any other an
/// empty function with its signature.
pub open spec fn item_code(item: ItemView) -> Seq<char> {
    if is_main(item) {
        "int main() { return 0; }"@
    } else {
        c_type_text(item.ty) + " "@ + item.ident.value + "("@ + args_text(item.args) + ") {\n}"@
    }
}

/// The C text of the items in order, each after a line break.
pub open spec fn code_of(items: Seq<ItemView>) -> Seq<char>
    decreases items.len(),
{
    if items.len() == 0 {
        Seq::empty()
    } else {
        code_of(items.drop_last()) + "\n"@ + item_code(items.last())
    }
}

/// The first item from `i` on that is a `main` with parameters.
pub open spec fn first_bad_main(items: Seq<ItemView>, i: int) -> Option<int>
    decreases items.len() - i,
{
    if i < 0 || i >= items.len() {
        None
    } else if is_main(items[i]) && items[i].args.len() > 0 {
        Some(i)
    } else {
        first_bad_main(items, i + 1)
    }
}

/// The rule for `main`: generation fails exactly when some item named `main` declares
/// parameters, and then it points at the first such item; a `main` without parameters never
/// makes it fail.
pub proof fn lemma_main_rule(items: Seq<ItemView>)
    ensures
        first_bad_main(items, 0) is None <==> forall|k: int|
            0 <= k < items.len() && is_main(#[trigger] items[k]) ==> items[k].args.len() == 0,
        first_bad_main(items, 0) matches Some(k) ==> 0 <= k < items.len() && is_main(items[k])
            && items[k].args.len() > 0 && forall|j: int|
            0 <= j < k && is_main(#[trigger] items[j]) ==> items[j].args.len() == 0,
{
    lemma_first_bad_main(items, 0);
}

proof fn lemma_first_bad_main(items: Seq<ItemView>, i: int)
    requires
        0 <= i <= items.len(),
    ensures
        first_bad_main(items, i) is None <==> forall|k: int|
            i <= k < items.len() && is_main(#[trigger] items[k]) ==> items[k].args.len() == 0,
        first_bad_main(items, i) matches Some(k) ==> i <= k < items.len() && is_main(items[k])
            && items[k].args.len() > 0 && forall|j: int|
            i <= j < k && is_main(#[trigger] items[j]) ==> items[j].args.len() == 0,
    decreases items.len() - i,
{
    if i < items.len() {
        lemma_first_bad_main(items, i + 1);
    }
}

pub open spec fn item_views(items: Seq<Spanned<Item>>) -> Seq<ItemView> {
    items.map_values(|s: Spanned<Item>| s.value@)
}

fn c_type(ty: Option<&Ty>) -> (r: String)
    ensures
        r@ == c_type_text(
            match ty {
                Some(t) => Some(t@),
                None => None,
            },
        ),
{
    let ty = match ty {
        Some(ty) => ty,
        None => {
            return String::from_str("void");
        },
    };
    if ty.optional {
        let mut text = String::from_str("optional_");
        text.append(ty.ident.value.as_str());
        text
    } else {
        ty.ident.value.clone()
    }
}

/// Generates C code out of Razor items.
pub fn gen_c(items: Vec<Spanned<Item>>) -> (r: Result<String, Spanned<CodegenError>>)
    ensures
        match first_bad_main(item_views(items@), 0) {
            Some(k) => r matches Err(e) && e.value == CodegenError::IncorrectMain && e.start
                == items@[k].value.ident.start && e.end == items@[k].value.ident.end,
            None => r matches Ok(code) && code@ == code_of(item_views(items@)),
        },
{
    let ghost views = item_views(items@);
    let main_name = String::from_str("main");
    let mut code = String::new();
    let mut i: usize = 0;
    while i < items.len()
        invariant
            i <= items@.len(),
            views == item_views(items@),
            main_name@ == "main"@,
            code@ == code_of(views.subrange(0, i as int)),
            first_bad_main(views, 0) == first_bad_main(views, i as int),
        decreases items@.len() - i,
    {
        let item = &items[i].value;
        let ghost before = code@;
        proof {
            assert(views.subrange(0, i + 1).drop_last() =~= views.subrange(0, i as int));
        }
        code.append("\n");
        match &item.kind {
            ItemKind::Fn { args, ty, block: _ } => {
                if item.ident.value == main_name {
                    if args.len() > 0 {
                        let at = item.ident.start..item.ident.end;
                        return Err(CodegenError::IncorrectMain.span(at));
                    }
                    code.append("int main() { return 0; }");
                } else {
                    let ret = c_type(ty.as_ref());
                    code.append(ret.as_str());
                    code.append(" ");
                    code.append(item.ident.value.as_str());
                    code.append("(");
                    let mut j: usize = 0;
                    let ghost arg_views = args@.map_values(|a: crate::item::FnArg| a@);
                    while j < args.len()
                        invariant
                            j <= args@.len(),
                            arg_views == args@.map_values(|a: crate::item::FnArg| a@),
                            code@ == before + "\n"@ + c_type_text(views[i as int].ty) + " "@
                                + views[i as int].ident.value + "("@ + args_text(
                                arg_views.subrange(0, j as int),
                            ),
                        decreases args@.len() - j,
                    {
                        proof {
                            assert(arg_views.subrange(0, j + 1).drop_last() =~= arg_views.subrange(
                                0,
                                j as int,
                            ));
                        }
                        if j > 0 {
                            code.append(", ");
                        }
                        let arg_ty = c_type(Some(&args[j].ty));
                        code.append(arg_ty.as_str());
                        code.append(" ");
                        code.append(args[j].ident.value.as_str());
                        j = j + 1;
                    }
                    proof {
                        assert(arg_views.subrange(0, j as int) =~= arg_views);
                    }
                    code.append(") {\n}");
                }
            },
        }
        i = i + 1;
    }
    proof {
        assert(views.subrange(0, i as int) =~= views);
    }
    Ok(code)
}

} // verus!
