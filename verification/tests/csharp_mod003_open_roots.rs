//! MOD003 over C# sources, with the roots the file shows.
use llm_tidy_lint::codes::CODE_QUALIFIED_PATH;
use llm_tidy_lint::csharp::mod003_qualified_path::check_with_open_roots;
use llm_tidy_lint::diagnostic::{Diagnostic, Severity};
use llm_tidy_lint::parser::parse_csharp;

/// Run MOD003 over a parse of `source`, which must parse cleanly.
fn lint(source: &str) -> Vec<Diagnostic> {
    let tree = parse_csharp(source).expect("test source must parse");
    assert!(!tree.nodes.iter().any(|n| n.error));
    check_with_open_roots(&tree, source.as_bytes())
}

#[test]
fn mod003_qualified_path_check_should_keep_static_property_tail_in_replacement() {
        let diagnostics = lint("class C { void M() { System.Console.Out.WriteLine(1); } }");

        assert_eq!(diagnostics.len(), 1);
        assert!(
            diagnostics[0]
                .message
                .contains("Add `using Console = System.Console;`")
        );
        assert!(
            diagnostics[0]
                .message
                .contains("Replace this path with `Console.Out.WriteLine`")
        );
    }

#[test]
fn mod003_qualified_path_check_should_exempt_conditionally_compiled_type() {
        let source = "#if DEBUG\nclass C { void M() { System.Console.WriteLine(1); } }\n#endif\nclass D { void Sibling() { System.Console.WriteLine(2); } }";

        let diagnostics = lint(source);

        assert_eq!(diagnostics.len(), 1);
        assert_eq!(diagnostics[0].item_name.as_deref(), Some("Sibling"));
    }

#[test]
fn csharp_mod003_qualified_path_fires_when_fully_qualified_path_is_already_imported() {
        let diags = lint(&[
            "using System.Threading.Tasks;\n",
            "class C {\n",
            "    void M() { System.Threading.Tasks.Task.Delay(1); }\n",
            "}\n",
        ].concat());

        assert_eq!(diags.len(), 1);
        assert_eq!(diags[0].code, CODE_QUALIFIED_PATH);
        assert_eq!(diags[0].severity, Severity::Hint);
        assert_eq!(diags[0].line, 3);
        assert_eq!(diags[0].item_kind, "fn");
        assert_eq!(diags[0].item_name.as_deref(), Some("M"));
        assert!(
            diags[0]
                .message
                .contains("`System.Threading.Tasks.Task.Delay`")
        );
        assert!(diags[0].message.contains("`Tasks` is already imported"));
        assert!(
            diags[0]
                .message
                .contains("Replace this path with `Task.Delay`")
        );
    }

#[test]
fn mod003_qualified_path_fires_for_qualified_type_positions() {
        let diags = lint(&[
            "using Nq.Text;\n",
            "class C { Nq.Text.Widget Make() { return null; } }\n",
        ].concat());

        assert_eq!(diags.len(), 1);
        assert!(diags[0].message.contains("`Text` is already imported"));
        assert_eq!(diags[0].item_kind, "fn");
        assert_eq!(diags[0].item_name.as_deref(), Some("Make"));
    }

#[test]
fn mod003_qualified_path_field_qualified_type_reports_the_field_as_enclosing_item() {
        let diags = lint(&[
            "using Nq.Text;\n",
            "class C { Nq.Text.Widget field; }\n",
        ].concat());

        assert_eq!(diags.len(), 1);
        assert_eq!(diags[0].item_kind, "const");
        assert_eq!(diags[0].item_name.as_deref(), Some("field"));
    }

#[test]
fn mod003_qualified_path_fires_with_the_alias_when_using_renames() {
        let diags = lint(&[
            "using Widget = Nq.Text.Widget;\n",
            "class C {\n",
            "    Nq.Text.Widget Make() { return null; }\n",
            "}\n",
        ].concat());

        assert_eq!(diags.len(), 1);
        assert!(diags[0].message.contains("`Nq.Text.Widget`"));
        assert!(diags[0].message.contains("`Widget` is already imported"));
        assert!(diags[0].message.contains("Replace this path with `Widget`"));
    }

#[test]
fn mod003_qualified_path_fires_with_the_alias_plus_tail_when_an_alias_covers_a_prefix() {
        let diags = lint(&[
            "using W = Nq.Text.Widget;\n",
            "class C {\n",
            "    void M() { var a = Nq.Text.Widget.Empty; }\n",
            "}\n",
        ].concat());

        assert_eq!(diags.len(), 1);
        assert!(diags[0].message.contains("`Nq.Text.Widget.Empty`"));
        assert!(diags[0].message.contains("`W` is already imported"));
        assert!(
            diags[0]
                .message
                .contains("Replace this path with `W.Empty`")
        );
    }

#[test]
fn mod003_qualified_path_fires_in_nested_namespaces_under_a_file_level_using() {
        let diags = lint(&[
            "using Nq.Text;\n",
            "namespace Work {\n",
            "    class C { void M() { var a = Nq.Text.Widget.Empty; } }\n",
            "}\n",
        ].concat());

        assert_eq!(diags.len(), 1);
        assert!(diags[0].message.contains("`Text` is already imported"));
    }

#[test]
fn mod003_qualified_path_check_should_suggest_import_when_existing_using_is_out_of_scope() {
        let diags = lint(&[
            "namespace Inner { using Nq.Text; }\n",
            "namespace Work {\n",
            "    class C { void M() { var a = Nq.Text.Widget.Empty; } }\n",
            "}\n",
        ].concat());

        assert_eq!(diags.len(), 1);
        assert!(diags[0].message.contains("Add `using Text = Nq.Text;`"));
    }

#[test]
fn mod003_qualified_path_silent_when_a_plain_using_covers_the_path_exactly() {
        let diags = lint(&[
            "using Nq.Text.Widget;\n",
            "class C { void M() { var a = Nq.Text.Widget; } }\n",
        ].concat());

        assert!(diags.is_empty());
    }

#[test]
fn csharp_mod003_qualified_path_check_should_hint_at_every_occurrence() {
        let diags = lint(&[
            "class C {\n",
            "    void M() {\n",
            "        System.Console.WriteLine(1);\n",
            "        System.Console.WriteLine(2);\n",
            "        System.Console.WriteLine(3);\n",
            "    }\n",
            "}\n",
        ].concat());

        assert_eq!(diags.len(), 3);
        assert_eq!(diags[0].severity, Severity::Hint);
        assert_eq!(diags[0].line, 3);
        assert_eq!(diags[0].item_kind, "fn");
        assert_eq!(diags[0].item_name.as_deref(), Some("M"));
        assert!(diags[0].message.contains("`System.Console.WriteLine`"));
        assert!(
            diags[0]
                .message
                .contains("Add `using Console = System.Console;`")
        );
    }

#[test]
fn csharp_mod003_qualified_path_check_should_order_hints_by_occurrence() {
        let diags = lint(&[
            "class C {\n",
            "    void M() {\n",
            "        System.Console.WriteLine(1);\n",
            "        System.Console.WriteLine(2);\n",
            "        System.Console.WriteLine(3);\n",
            "        System.Math.Max(1, 2);\n",
            "        System.Math.Max(1, 2);\n",
            "        System.Math.Max(1, 2);\n",
            "    }\n",
            "}\n",
        ].concat());

        assert_eq!(diags.len(), 6);
        assert!(diags[0].message.contains("`System.Console.WriteLine`"));
        assert!(diags[3].message.contains("`System.Math.Max`"));
        assert!(diags[0].line < diags[1].line);
    }

#[test]
fn csharp_mod003_qualified_path_check_should_order_same_line_hints_by_occurrence() {
        let diags = lint(&[
            "class C {\n",
            "    void M() {\n",
            "        var t = (System.Math.Abs(-1), System.Console.ReadKey());\n",
            "        var u = (System.Math.Abs(-1), System.Console.ReadKey());\n",
            "        var v = (System.Math.Abs(-1), System.Console.ReadKey());\n",
            "    }\n",
            "}\n",
        ].concat());

        assert_eq!(diags.len(), 6);
        assert_eq!(diags[0].line, 3);
        assert_eq!(diags[1].line, 3);
        assert!(diags[0].message.contains("`System.Math.Abs`"));
        assert!(diags[1].message.contains("`System.Console.ReadKey`"));
    }

#[test]
fn csharp_mod003_qualified_path_silent_for_paths_without_a_rooted_first_segment() {
        let diags = lint(&[
            "class C {\n",
            "    void M() {\n",
            "        Deep.Member.Op();\n",
            "        Deep.Member.Op();\n",
            "        Deep.Member.Op();\n",
            "    }\n",
            "}\n",
        ].concat());

        assert!(diags.is_empty());
    }

#[test]
fn mod003_qualified_path_silent_inside_attribute_list_spans() {
        let diags = lint(&[
            "using Nq;\n",
            "[Nq.Probe.Mark]\n",
            "class A { }\n",
            "[Nq.Probe.Mark]\n",
            "class B { }\n",
            "[Nq.Probe.Mark]\n",
            "class C { }\n",
        ].concat());

        assert!(diags.is_empty());
    }

#[test]
fn mod003_qualified_path_using_directive_text_is_never_flagged() {
        let diags = lint(&[
            "using System.Text;\n",
            "using Nq.Text.Widget;\n",
            "using W = Nq.Text.Widget;\n",
            "using static System.Math;\n",
            "class C { }\n",
        ].concat());

        assert!(diags.is_empty());
    }

#[test]
fn mod003_qualified_path_silent_when_short_name_is_shadowed_by_a_parameter_or_local() {
        let diags = lint(&[
            "using Nq.Text.Widget;\n",
            "class C {\n",
            "    void P(int Empty) { var a = Nq.Text.Widget.Empty; }\n",
            "    void L() { var Empty = 1; var b = Nq.Text.Widget.Empty; }\n",
            "}\n",
        ].concat());

        assert!(diags.is_empty());
    }

#[test]
fn mod003_qualified_path_fires_before_and_suppresses_after_a_shadowing_local() {
        let diags = lint(&[
            "using Nq.Text.Widget;\n",
            "class C {\n",
            "    void M() {\n",
            "        var a = Nq.Text.Widget.Empty;\n",
            "        var Empty = 1;\n",
            "        var b = Nq.Text.Widget.Empty;\n",
            "    }\n",
            "}\n",
        ].concat());

        assert_eq!(diags.len(), 1);
        assert_eq!(diags[0].line, 4);
        assert!(diags[0].message.contains("`Widget` is already imported"));
    }

#[test]
fn mod003_qualified_path_silent_when_short_name_is_shadowed_by_a_foreach_or_catch_designation() {
        let diags = lint(&[
            "using Nq.Text.Widget;\n",
            "class C {\n",
            "    void F() {\n",
            "        foreach (var Empty in items) { var a = Nq.Text.Widget.Empty; }\n",
            "    }\n",
            "    void H() {\n",
            "        try { } catch (Exception Empty) { var b = Nq.Text.Widget.Empty; }\n",
            "    }\n",
            "}\n",
        ].concat());

        assert!(diags.is_empty());
    }

#[test]
fn mod003_qualified_path_silent_when_short_name_is_shadowed_by_a_lambda_parameter() {
        let diags = lint(&[
            "using Nq.Text.Widget;\n",
            "class C {\n",
            "    void M() {\n",
            "        Func<int, int> f = Empty => Nq.Text.Widget.Empty.Value;\n",
            "    }\n",
            "}\n",
        ].concat());

        assert!(diags.is_empty());
    }

#[test]
fn mod003_qualified_path_silent_when_short_name_is_shadowed_by_a_same_named_declaration() {
        let diags = lint(&[
            "using Nq.Text.Widget;\n",
            "class Empty { }\n",
            "class C { void M() { var a = Nq.Text.Widget.Empty; } }\n",
        ].concat());

        assert!(diags.is_empty());
    }

#[test]
fn one_segment_usings_never_cover_a_path() {
        let diags = lint(&[
            "using Nq;\n",
            "class C { void M() { var a = Nq.Text.Widget.Empty; } }\n",
        ].concat());

        assert_eq!(diags.len(), 1);
        assert!(diags[0].message.contains("Add `using Text = Nq.Text;`"));
    }

#[test]
fn csharp_mod003_qualified_path_check_should_suppress_advice_when_covering_import_is_shadowed() {
        let diags = lint(&[
            "using System.Threading.Tasks;\n",
            "class C {\n",
            "    void M(int Task) {\n",
            "        System.Threading.Tasks.Task.Delay(1);\n",
            "        System.Threading.Tasks.Task.Delay(2);\n",
            "        System.Threading.Tasks.Task.Delay(3);\n",
            "    }\n",
            "}\n",
        ].concat());

        assert!(diags.is_empty());
    }

#[test]
fn mod003_qualified_path_silent_when_short_name_is_shadowed_by_a_deconstruction_pattern() {
        let diags = lint(&[
            "using Nq.Text.Widget;\n",
            "class C {\n",
            "    void M() {\n",
            "        var (d, Empty) = (1, 2);\n",
            "        var a = Nq.Text.Widget.Empty;\n",
            "    }\n",
            "}\n",
        ].concat());

        assert!(diags.is_empty());
    }

#[test]
fn mod003_qualified_path_silent_when_short_name_is_shadowed_by_a_pattern_designation() {
        let diags = lint(&[
            "using Nq.Text.Widget;\n",
            "class C {\n",
            "    void M(object o) {\n",
            "        if (o is int Empty) { var a = Nq.Text.Widget.Empty; }\n",
            "    }\n",
            "}\n",
        ].concat());

        assert!(diags.is_empty());
    }

#[test]
fn mod003_qualified_path_silent_when_short_name_is_shadowed_by_out_var_and_positional_designations() {
        let diags = lint(&[
            "using Nq.Text.Widget;\n",
            "class C {\n",
            "    void P() { Try(out var Empty, out var b); var a = Nq.Text.Widget.Empty; }\n",
            "    void Q(object o) { if (o is Pair(int a, int Empty)) { var b = Nq.Text.Widget.Empty; } }\n",
            "    void R(object o) { switch (o) { case var (a, Empty): break; } var c = Nq.Text.Widget.Empty; }\n",
            "}\n",
        ].concat());

        assert!(diags.is_empty());
    }

#[test]
fn mod003_qualified_path_silent_when_short_name_is_shadowed_by_query_variables() {
        let diags = lint(&[
            "using Nq.Text.Widget;\n",
            "class C {\n",
            "    void F() {\n",
            "        var q = from Empty in xs select Nq.Text.Widget.Empty;\n",
            "    }\n",
            "    void L() {\n",
            "        var q = from x in xs let Empty = x select Nq.Text.Widget.Empty;\n",
            "    }\n",
            "    void I() {\n",
            "        var q = from x in xs select x into Empty select Nq.Text.Widget.Empty;\n",
            "    }\n",
            "    void J() {\n",
            "        var q = from x in xs join Empty in ys on x.K equals ys.K select Nq.Text.Widget.Empty;\n",
            "    }\n",
            "    void K() {\n",
            "        var q = from x in xs join y in ys on x.K equals y.K into Empty select Nq.Text.Widget.Empty;\n",
            "    }\n",
            "}\n",
        ].concat());

        assert!(diags.is_empty());
    }

#[test]
fn mod003_qualified_path_silent_when_short_name_is_shadowed_by_a_typed_join_range_variable() {
        let diags = lint(&[
            "using Nq.Text.Widget;\n",
            "class C {\n",
            "    void T() {\n",
            "        var q = from x in xs join Foo Empty in ys on x.K equals ys.K select Nq.Text.Widget.Empty;\n",
            "    }\n",
            "}\n",
        ].concat());

        assert!(diags.is_empty());
    }

#[test]
fn mod003_qualified_path_fires_when_only_the_join_binder_is_renamed() {
        let diags = lint(&[
            "using Nq.Text.Widget;\n",
            "class C {\n",
            "    void R() {\n",
            "        var q = from x in xs join y in ys on x.K equals y.K select Nq.Text.Widget.Empty;\n",
            "    }\n",
            "}\n",
        ].concat());

        assert_eq!(diags.len(), 1);
        assert_eq!(diags[0].code, CODE_QUALIFIED_PATH);
        assert_eq!(diags[0].severity, Severity::Hint);
        assert!(diags[0].message.contains("`Widget` is already imported"));
    }

#[test]
fn mod003_qualified_path_silent_when_a_top_level_declaration_shares_the_short_name() {
        let diags = lint(&[
            "using Nq;\n",
            "class Util { }\n",
            "class C {\n",
            "    void M() {\n",
            "        Nq.Util.Helper.Run();\n",
            "        Nq.Util.Helper.Run();\n",
            "        Nq.Util.Helper.Run();\n",
            "    }\n",
            "}\n",
        ].concat());

        assert!(diags.is_empty());
    }

#[test]
fn mod003_qualified_path_silent_when_a_top_level_using_shares_the_short_name() {
        let diags = lint(&[
            "using Foo = Other.Ns.Foo;\n",
            "class C {\n",
            "    void M() {\n",
            "        var a = Microsoft.Foo.Text.Value;\n",
            "        var b = Microsoft.Foo.Text.Value;\n",
            "        var c = Microsoft.Foo.Text.Value;\n",
            "    }\n",
            "}\n",
        ].concat());

        assert!(diags.is_empty());
    }

#[test]
fn mod003_qualified_path_silent_when_short_name_is_ambiguous_across_usings() {
        let diags = lint(&[
            "using Na.X;\n",
            "using Nb.X;\n",
            "class C {\n",
            "    void M() { var a = Na.X; var b = Na.X; var c = Na.X; }\n",
            "}\n",
        ].concat());

        assert!(diags.is_empty());
    }

#[test]
fn mod003_qualified_path_check_should_suggest_alias_when_only_static_using_exists() {
        let diags = lint(&[
            "using static Nq.Thing;\n",
            "class C { void M() { Nq.Thing.Op(1); } }\n",
        ].concat());

        assert_eq!(diags.len(), 1);
        assert!(diags[0].message.contains("Add `using Thing = Nq.Thing;`"));
    }
