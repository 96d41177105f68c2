//! Rendering of MathML formulas to terminal text.
use bookokrat::mathml::parser::mathml_to_ascii;

#[test]
fn test_simple_fraction() {
    let mathml = r#"
        <math xmlns="http://www.w3.org/1998/Math/MathML">
            <mfrac>
                <mi>a</mi>
                <mi>b</mi>
            </mfrac>
        </math>
        "#;

    let result = mathml_to_ascii(mathml, true).unwrap();
    assert!(result.contains('─'));
    assert!(result.contains('a'));
    assert!(result.contains('b'));
}

#[test]
fn test_unicode_subscript() {
    let mathml = r#"
        <math xmlns="http://www.w3.org/1998/Math/MathML">
            <msub>
                <mi>x</mi>
                <mn>1</mn>
            </msub>
        </math>
        "#;

    let result = mathml_to_ascii(mathml, true).unwrap();
    assert_eq!(result, "x₁");
}

#[test]
fn test_unicode_superscript() {
    let mathml = r#"
        <math xmlns="http://www.w3.org/1998/Math/MathML">
            <msup>
                <mi>x</mi>
                <mn>2</mn>
            </msup>
        </math>
        "#;

    let result = mathml_to_ascii(mathml, true).unwrap();
    assert_eq!(result, "x²");
}

#[test]
fn test_complex_equation() {
    let mathml = r#"
<math xmlns="http://www.w3.org/1998/Math/MathML">
    <mrow>
        <msub><mi>E</mi><mrow><mi>P</mi><mo>(</mo><mi>x</mi><mo>)</mo></mrow></msub>
        <mrow><mo>[</mo><mi>x</mi><mo>]</mo></mrow>
        <mo>=</mo>
        <munder><mo>∑</mo><mi>x</mi></munder>
        <mi>P</mi><mo>(</mo><mi>x</mi><mo>)</mo><mi>x</mi>
        <mo>=</mo>
        <munder><mo>∑</mo><mi>x</mi></munder>
        <mi>Q</mi><mo>(</mo><mi>x</mi><mo>)</mo><mi>x</mi>
        <mfrac>
            <mrow><mi>P</mi><mo>(</mo><mi>x</mi><mo>)</mo></mrow>
            <mrow><mi>Q</mi><mo>(</mo><mi>x</mi><mo>)</mo></mrow>
        </mfrac>
        <mo>=</mo>
        <msub><mi>E</mi><mrow><mi>Q</mi><mo>(</mo><mi>x</mi><mo>)</mo></mrow></msub>
        <mrow>
            <mo>[</mo>
            <mi>x</mi>
            <mfrac>
                <mrow><mi>P</mi><mo>(</mo><mi>x</mi><mo>)</mo></mrow>
                <mrow><mi>Q</mi><mo>(</mo><mi>x</mi><mo>)</mo></mrow>
            </mfrac>
            <mo>]</mo>
        </mrow>
    </mrow>
</math>
        "#;

    let expected = r#"
                            P(x)        ⎡ P(x)⎤
E    [x] = ∑ P(x)x = ∑ Q(x)x──── = E    ⎢x────⎥
 P(x)      x         x      Q(x)    Q(x)⎣ Q(x)⎦"#
        .trim();
    let result = mathml_to_ascii(mathml, true).unwrap();
    assert_eq!(result.trim(), expected);
}

#[test]
fn test_simple_fraction_alignment() {
    let mathml = r#"
<math xmlns="http://www.w3.org/1998/Math/MathML">
    <mrow>
        <mi>y</mi>
        <mo>=</mo>
        <mfrac>
            <mi>a</mi>
            <mi>b</mi>
        </mfrac>
        <mo>+</mo>
        <mfrac>
            <mi>c</mi>
            <mi>d</mi>
        </mfrac>
    </mrow>
</math>
        "#;

    let expected = r#"
    a   c
y = ─ + ─
    b   d"#
        .trim();
    let result = mathml_to_ascii(mathml, true).unwrap();
    assert_eq!(result.trim(), expected);
}

#[test]
fn test_super_complex_equation() {
    let mathml = r#"
<math xmlns="http://www.w3.org/1998/Math/MathML" alttext="gamma left-parenthesis v right-parenthesis equals left-bracket a 1 cosine left-parenthesis 2 pi b 1 Superscript upper T Baseline v right-parenthesis comma a 1 sine left-parenthesis 2 pi b 1 Superscript upper T Baseline v right-parenthesis comma ellipsis comma a Subscript m Baseline cosine left-parenthesis 2 pi b Subscript m Baseline Superscript upper T Baseline v right-parenthesis comma a Subscript m Baseline sine left-parenthesis 2 pi b Subscript m Baseline Superscript upper T Baseline v right-parenthesis right-bracket Superscript upper T">
  <mrow>
    <mi>γ</mi>
    <mrow>
      <mo>(</mo>
      <mi>v</mi>
      <mo>)</mo>
    </mrow>
    <mo>=</mo>
    <msup><mrow><mo>[</mo><msub><mi>a</mi> <mn>1</mn> </msub><mo form="prefix">cos</mo><mrow><mo>(</mo><mn>2</mn><mi>π</mi><msup><mrow><msub><mi>b</mi> <mn>1</mn> </msub></mrow> <mi>T</mi> </msup><mi>v</mi><mo>)</mo></mrow><mo>,</mo><msub><mi>a</mi> <mn>1</mn> </msub><mo form="prefix">sin</mo><mrow><mo>(</mo><mn>2</mn><mi>π</mi><msup><mrow><msub><mi>b</mi> <mn>1</mn> </msub></mrow> <mi>T</mi> </msup><mi>v</mi><mo>)</mo></mrow><mo>,</mo><mo>...</mo><mo>,</mo><msub><mi>a</mi> <mi>m</mi> </msub><mo form="prefix">cos</mo><mrow><mo>(</mo><mn>2</mn><mi>π</mi><msup><mrow><msub><mi>b</mi> <mi>m</mi> </msub></mrow> <mi>T</mi> </msup><mi>v</mi><mo>)</mo></mrow><mo>,</mo><msub><mi>a</mi> <mi>m</mi> </msub><mo form="prefix">sin</mo><mrow><mo>(</mo><mn>2</mn><mi>π</mi><msup><mrow><msub><mi>b</mi> <mi>m</mi> </msub></mrow> <mi>T</mi> </msup><mi>v</mi><mo>)</mo></mrow><mo>]</mo></mrow> <mi>T</mi> </msup>
  </mrow>
</math>
        "#;

    let expected = r#"
γ(v) = [a₁cos(2πb₁ᵀv),a₁sin(2πb₁ᵀv),...,aₘcos(2πbₘᵀv),aₘsin(2πbₘᵀv)]ᵀ"#
        .trim();
    let result = mathml_to_ascii(mathml, true).unwrap();
    assert_eq!(result.trim(), expected);
}

#[test]
fn test_prime_superscript() {
    let mathml = r#"
<math xmlns="http://www.w3.org/1998/Math/MathML" alttext="x prime equals gamma x 1 plus left-parenthesis 1 minus gamma right-parenthesis x 2">
  <mrow>
    <msup><mrow><mi>x</mi></mrow> <mo>'</mo> </msup>
    <mo>=</mo>
    <mi>γ</mi>
    <msub><mi>x</mi> <mn>1</mn> </msub>
    <mo>+</mo>
    <mrow>
      <mo>(</mo>
      <mn>1</mn>
      <mo>-</mo>
      <mi>γ</mi>
      <mo>)</mo>
    </mrow>
    <msub><mi>x</mi> <mn>2</mn> </msub>
  </mrow>
</math>
        "#;

    let expected = r#"
x′ = γx₁ + (1 - γ)x₂"#
        .trim();
    let result = mathml_to_ascii(mathml, true).unwrap();
    assert_eq!(result.trim(), expected);
}

#[test]
fn test_summation_with_subscript() {
    let mathml = r#"
        <math xmlns="http://www.w3.org/1998/Math/MathML">
            <munder>
                <mo>∑</mo>
                <mi>i</mi>
            </munder>
        </math>
        "#;

    let expected = r#"∑
i"#
    .trim();
    let result = mathml_to_ascii(mathml, true).unwrap();
    assert_eq!(result.trim(), expected);
}

#[test]
fn test_likelihood_function() {
    let mathml = r#"
<math xmlns="http://www.w3.org/1998/Math/MathML" alttext="upper L left-parenthesis x semicolon theta right-parenthesis equals sigma-summation Underscript j Endscripts upper C Subscript i j Baseline upper P left-parenthesis j vertical-bar x semicolon theta right-parenthesis">
  <mrow>
    <mi>L</mi>
    <mrow>
      <mo>(</mo>
      <mi>x</mi>
      <mo>;</mo>
      <mi>θ</mi>
      <mo>)</mo>
    </mrow>
    <mo>=</mo>
    <msub><mo>∑</mo> <mi>j</mi> </msub>
    <msub><mi>C</mi> <mrow><mi>i</mi><mi>j</mi></mrow> </msub>
    <mi>P</mi>
    <mrow>
      <mo>(</mo>
      <mi>j</mi>
      <mo>|</mo>
      <mi>x</mi>
      <mo>;</mo>
      <mi>θ</mi>
      <mo>)</mo>
    </mrow>
  </mrow>
</math>
        "#;

    let expected = "L(x;θ) = ∑ⱼCᵢⱼP(j|x;θ)";
    let result = mathml_to_ascii(mathml, true).unwrap();
    assert_eq!(result.trim(), expected.trim());
}

#[test]
fn test_average_likelihood_with_fraction() {
    let mathml = r#"
<math xmlns="http://www.w3.org/1998/Math/MathML" alttext="upper L left-parenthesis upper X semicolon theta right-parenthesis equals sigma-summation Underscript x Endscripts StartFraction 1 Over upper N EndFraction upper L left-parenthesis x semicolon theta right-parenthesis">
  <mrow>
    <mi>L</mi>
    <mrow>
      <mo>(</mo>
      <mi>X</mi>
      <mo>;</mo>
      <mi>θ</mi>
      <mo>)</mo>
    </mrow>
    <mo>=</mo>
    <msub><mo>∑</mo> <mi>x</mi> </msub>
    <mfrac><mn>1</mn> <mi>N</mi></mfrac>
    <mi>L</mi>
    <mrow>
      <mo>(</mo>
      <mi>x</mi>
      <mo>;</mo>
      <mi>θ</mi>
      <mo>)</mo>
    </mrow>
  </mrow>
</math>
        "#;

    let expected = r#"1
L(X;θ) = ∑ₓ─L(x;θ)
           N"#;
    let result = mathml_to_ascii(mathml, true).unwrap();
    assert_eq!(result.trim(), expected.trim());
}

#[test]
fn test_weight_formula_with_text() {
    let mathml = r#"
<math xmlns="http://www.w3.org/1998/Math/MathML" alttext="upper W Subscript i Baseline equals StartFraction upper N Over number of samples of class reverse-solidus emph left-brace i right-brace EndFraction">
  <mrow>
    <msub><mi>W</mi> <mi>i</mi> </msub>
    <mo>=</mo>
    <mfrac><mi>N</mi> <mrow><mtext>number</mtext><mspace width="4.pt"/><mtext>of</mtext><mspace width="4.pt"/><mtext>samples</mtext><mspace width="4.pt"/><mtext>of</mtext><mspace width="4.pt"/><mtext>class</mtext><mspace width="4.pt"/><mtext>i</mtext></mrow></mfrac>
  </mrow>
</math>
        "#;

    let expected = r#"N
Wᵢ = ────────────────────────────
     number of samples of class i"#;
    let result = mathml_to_ascii(mathml, true).unwrap();
    assert_eq!(result.trim(), expected.trim());
}

#[test]
fn test_mspace_handling() {
    let mathml = r#"
        <math xmlns="http://www.w3.org/1998/Math/MathML">
            <mrow>
                <mtext>hello</mtext>
                <mspace width="5pt"/>
                <mtext>world</mtext>
            </mrow>
        </math>
        "#;

    let expected = "hello world";
    let result = mathml_to_ascii(mathml, true).unwrap();
    assert_eq!(result.trim(), expected);
}

#[test]
fn test_nested_subscript_superscript() {
    let mathml = r#"
<math xmlns="http://www.w3.org/1998/Math/MathML" alttext="sigma-summation Underscript j Endscripts e Superscript x Super Subscript j">
  <mrow>
    <msub><mo>∑</mo> <mi>j</mi> </msub>
    <msup><mi>e</mi> <msub><mi>x</mi> <mi>j</mi> </msub> </msup>
  </mrow>
</math>
        "#;

    let expected = r#"xⱼ
∑ⱼe"#;
    let result = mathml_to_ascii(mathml, true).unwrap();
    assert_eq!(result.trim(), expected);
}

#[test]
fn test_latex_notation_subscripts() {
    let mathml = r#"
        <math xmlns="http://www.w3.org/1998/Math/MathML">
            <msub>
                <mi>A</mi>
                <mi>bc</mi>
            </msub>
        </math>
        "#;

    let expected = "A_bc";
    let result = mathml_to_ascii(mathml, true).unwrap();
    assert_eq!(result.trim(), expected);
}

#[test]
fn test_latex_notation_superscripts() {
    let mathml = r#"
        <math xmlns="http://www.w3.org/1998/Math/MathML">
            <msup>
                <mi>y</mi>
                <mi>q1</mi>
            </msup>
        </math>
        "#;

    let expected = "y^q1";
    let result = mathml_to_ascii(mathml, true).unwrap();
    assert_eq!(result.trim(), expected);
}

#[test]
fn test_latex_notation_fallback_to_multiline() {
    let mathml = r#"
        <math xmlns="http://www.w3.org/1998/Math/MathML">
            <msub>
                <mi>x</mi>
                <mi>abc</mi>
            </msub>
        </math>
        "#;

    let expected = r#"x_abc"#;
    let result = mathml_to_ascii(mathml, true).unwrap();
    assert_eq!(result.trim(), expected.trim());
}

#[test]
fn test_attention_mechanism() {
    let mathml = r#"
<math xmlns="http://www.w3.org/1998/Math/MathML" alttext="Attention left-parenthesis upper Q comma upper K comma upper V right-parenthesis equals softmax left-parenthesis StartFraction upper Q upper K Superscript upper T Baseline Over StartRoot d EndRoot EndFraction right-parenthesis upper V">
  <mrow>
    <mtext>Attention</mtext>
    <mrow>
      <mo>(</mo>
      <mi>Q</mi>
      <mo>,</mo>
      <mi>K</mi>
      <mo>,</mo>
      <mi>V</mi>
      <mo>)</mo>
    </mrow>
    <mo>=</mo>
    <mi> softmax </mi>
    <mrow>
      <mo>(</mo>
      <mfrac><mrow><mi>Q</mi><msup><mi>K</mi> <mi>T</mi> </msup></mrow> <msqrt><mi>d</mi></msqrt></mfrac>
      <mo>)</mo>
    </mrow>
    <mi>V</mi>
  </mrow>
</math>
        "#;

    let expected = r#"
                            ⎛QKᵀ ⎞
Attention(Q,K,V) =  softmax ⎜────⎟V
                            ⎝√(d)⎠"#;
    let result = mathml_to_ascii(mathml, true).unwrap();
    assert_eq!(result.trim(), expected.trim());
}

#[test]
fn test_complex_square_root() {
    let mathml = r#"
<math xmlns="http://www.w3.org/1998/Math/MathML">
  <msqrt>
    <mfrac>
      <mrow>
        <msup><mi>x</mi> <mn>2</mn> </msup>
        <mo>+</mo>
        <msub><mi>b</mi> <mi>c</mi> </msub>
      </mrow>
      <mrow>
        <msup>
          <mrow>
            <mo form="prefix">sin</mo>
            <mrow>
              <mo>(</mo>
              <mi>x</mi>
              <mo>)</mo>
            </mrow>
          </mrow>
          <mrow>
            <mo form="prefix">cos</mo>
            <mrow>
              <mo>(</mo>
              <mi>y</mi>
              <mo>)</mo>
            </mrow>
          </mrow>
        </msup>
        <mo>+</mo>
        <msup><mi>e</mi>
          <mrow>
            <mi>z</mi>
            <mo>*</mo>
            <mn>5</mn>
          </mrow>
        </msup>
      </mrow>
    </mfrac>
  </msqrt>
</math>
        "#;

    let expected = r#"
      ⟋───────────────────────
    ╱      x² + b_c
_  ╱  ───────────────────
 \╱   sin(x)ᶜᵒˢ⁽ʸ⁾ + eᶻ·⁵"#;

    let result = mathml_to_ascii(mathml, true).unwrap();
    assert_eq!(result.trim(), expected.trim());
}

#[test]
fn test_probability_formula_with_product() {
    let mathml = r#"
<math xmlns="http://www.w3.org/1998/Math/MathML" alttext="upper P left-parenthesis x 1 comma x 2 comma period period period comma x Subscript n Baseline right-parenthesis Superscript minus StartFraction 1 Over n EndFraction Baseline equals left-parenthesis StartFraction 1 Over upper P left-parenthesis x 1 comma x 2 comma ellipsis comma x Subscript n Baseline right-parenthesis EndFraction right-parenthesis Superscript StartFraction 1 Over n EndFraction Baseline equals left-parenthesis product Underscript i equals 1 Overscript n Endscripts StartFraction 1 Over upper P left-parenthesis x Subscript i Baseline vertical-bar x 1 comma period period period comma x Subscript i minus 1 Baseline right-parenthesis EndFraction right-parenthesis Superscript StartFraction 1 Over n EndFraction">
  <mrow>
    <mi>P</mi>
    <msup><mrow><mo>(</mo><msub><mi>x</mi> <mn>1</mn> </msub><mo>,</mo><msub><mi>x</mi> <mn>2</mn> </msub><mo>,</mo><mo>.</mo><mo>.</mo><mo>.</mo><mo>,</mo><msub><mi>x</mi> <mi>n</mi> </msub><mo>)</mo></mrow> <mrow><mo>-</mo><mfrac><mn>1</mn> <mi>n</mi></mfrac></mrow> </msup>
    <mo>=</mo>
    <msup><mrow><mo>(</mo><mfrac><mn>1</mn> <mrow><mi>P</mi><mo>(</mo><msub><mi>x</mi> <mn>1</mn> </msub><mo>,</mo><msub><mi>x</mi> <mn>2</mn> </msub><mo>,</mo><mi>â</mi><mi></mi><mi>¦</mi><mo>,</mo><msub><mi>x</mi> <mi>n</mi> </msub><mo>)</mo></mrow></mfrac><mo>)</mo></mrow> <mfrac><mn>1</mn> <mi>n</mi></mfrac> </msup>
    <mo>=</mo>
    <msup><mrow><mo>(</mo><msubsup><mo>∏</mo> <mrow><mi>i</mi><mo>=</mo><mn>1</mn></mrow> <mi>n</mi> </msubsup><mfrac><mn>1</mn> <mrow><mi>P</mi><mo>(</mo><msub><mi>x</mi> <mi>i</mi> </msub><mo>|</mo><msub><mi>x</mi> <mn>1</mn> </msub><mo>,</mo><mo>.</mo><mo>.</mo><mo>.</mo><mo>,</mo><msub><mi>x</mi> <mrow><mi>i</mi><mo>-</mo><mn>1</mn></mrow> </msub><mo>)</mo></mrow></mfrac><mo>)</mo></mrow> <mfrac><mn>1</mn> <mi>n</mi></mfrac> </msup>
  </mrow>
</math>
        "#;

    let expected = r#"
                                      1                                1
                  1                   ─                                ─
                - ─                   n                                n
                  n   ⎛      1       ⎞     ⎛   n            1         ⎞
P(x₁,x₂,...,xₙ)     = ⎜──────────────⎟  =  ⎜   ∏   ───────────────────⎟
                      ⎝P(x₁,x₂,â¦,xₙ)⎠     ⎝ i = 1 P(xᵢ|x₁,...,xᵢ ₋ ₁)⎠"#;
    let result = mathml_to_ascii(mathml, true).unwrap();
    assert_eq!(result.trim(), expected.trim());
}

fn assert_multiline_eq(actual: &str, expected: &str) {
    let actual_lines: Vec<&str> = actual.lines().collect();
    let expected_lines: Vec<&str> = expected.lines().collect();

    if actual != expected {
        println!("\n=== ASSERTION FAILED ===");
        println!(
            "Expected {} lines, got {} lines\n",
            expected_lines.len(),
            actual_lines.len()
        );

        let max_lines = actual_lines.len().max(expected_lines.len());
        for i in 0..max_lines {
            let actual_line = actual_lines.get(i).unwrap_or(&"<missing>");
            let expected_line = expected_lines.get(i).unwrap_or(&"<missing>");

            if actual_line != expected_line {
                println!("Line {} differs:", i + 1);
                println!("  Expected: {expected_line:?}");
                println!("  Actual:   {actual_line:?}");
            } else {
                println!("Line {} matches: {:?}", i + 1, actual_line);
            }
        }

        println!("\n=== FULL EXPECTED OUTPUT ===");
        println!("{expected}");
        println!("\n=== FULL ACTUAL OUTPUT ===");
        println!("{actual}");
        println!("=== END ===\n");

        panic!("Multi-line strings don't match");
    }
}

#[test]
fn test_complex_table_with_fenced_expression() {
    let mathml = r#"
<math xmlns="http://www.w3.org/1998/Math/MathML" display="block">
  <mtable displaystyle="true">
    <mtr>
      <mtd columnalign="right">
        <mrow>
          <mi>J</mi>
          <mo>(</mo>
          <mi>k</mi>
          <mo>,</mo>
          <msub><mi>t</mi> <mi>k</mi> </msub>
          <mo>)</mo>
        </mrow>
      </mtd>
      <mtd columnalign="left">
        <mrow>
          <mo>=</mo>
          <mfrac><msub><mi>m</mi> <mtext>left</mtext> </msub> <mi>m</mi></mfrac>
          <mspace width="0.166667em"></mspace>
          <msub><mtext>G</mtext> <mtext>left</mtext> </msub>
          <mo>+</mo>
          <mfrac><msub><mi>m</mi> <mtext>right</mtext> </msub> <mi>m</mi></mfrac>
          <mspace width="0.166667em"></mspace>
          <msub><mtext>G</mtext> <mtext>right</mtext> </msub>
        </mrow>
      </mtd>
    </mtr>
    <mtr>
      <mtd columnalign="right">
        <mrow>
          <mtext>where</mtext>
          <mspace width="1.em"></mspace>
        </mrow>
      </mtd>
      <mtd columnalign="left">
        <mfenced separators="" open="{" close="">
          <mtable>
            <mtr>
              <mtd columnalign="left">
                <mrow>
                  <msub><mtext>G</mtext> <mtext>left/right</mtext> </msub>
                  <mspace width="4.pt"></mspace>
                  <mtext>measures</mtext>
                  <mspace width="4.pt"></mspace>
                  <mtext>the</mtext>
                  <mspace width="4.pt"></mspace>
                  <mtext>impurity</mtext>
                  <mspace width="4.pt"></mspace>
                  <mtext>of</mtext>
                  <mspace width="4.pt"></mspace>
                  <mtext>the</mtext>
                  <mspace width="4.pt"></mspace>
                  <mtext>left/right</mtext>
                  <mspace width="4.pt"></mspace>
                  <mtext>subset</mtext>
                </mrow>
              </mtd>
            </mtr>
            <mtr>
              <mtd columnalign="left">
                <mrow>
                  <msub><mi>m</mi> <mtext>left/right</mtext> </msub>
                  <mspace width="4.pt"></mspace>
                  <mtext>is</mtext>
                  <mspace width="4.pt"></mspace>
                  <mtext>the</mtext>
                  <mspace width="4.pt"></mspace>
                  <mtext>number</mtext>
                  <mspace width="4.pt"></mspace>
                  <mtext>of</mtext>
                  <mspace width="4.pt"></mspace>
                  <mtext>instances</mtext>
                  <mspace width="4.pt"></mspace>
                  <mtext>in</mtext>
                  <mspace width="4.pt"></mspace>
                  <mtext>the</mtext>
                  <mspace width="4.pt"></mspace>
                  <mtext>left/right</mtext>
                  <mspace width="4.pt"></mspace>
                  <mtext>subset</mtext>
                </mrow>
              </mtd>
            </mtr>
            <mtr>
              <mtd columnalign="left">
                <mrow>
                  <mi>m</mi>
                  <mo>=</mo>
                  <msub><mi>m</mi> <mtext>left</mtext> </msub>
                  <mo>+</mo>
                  <msub><mi>m</mi> <mtext>right</mtext> </msub>
                </mrow>
              </mtd>
            </mtr>
          </mtable>
        </mfenced>
      </mtd>
    </mtr>
  </mtable>
</math>
        "#;

    let expected = r#"                           m_left          m_right
               J(k,tₖ)   = ────── G_left + ─────── G_right
                             m                m
        ⎧  G_left/right measures the impurity of the left/right subset
where   ⎨m_left/right is the number of instances in the left/right subset
        ⎩                      m = m_left + m_right"#;
    let result = mathml_to_ascii(mathml, true).unwrap();
    assert_multiline_eq(result.trim(), expected.trim());
}

#[test]
fn test_entropy_formula_with_munderover() {
    let mathml = r#"
<math xmlns="http://www.w3.org/1998/Math/MathML" display="block">
  <mrow>
    <msub><mi>H</mi> <mi>i</mi> </msub>
    <mo>=</mo>
    <mo>-</mo>
    <munderover><mo>∑</mo> <mfrac linethickness="0pt"><mrow><mi>k</mi><mo>=</mo><mn>1</mn></mrow> <mrow><msub><mi>p</mi> <mrow><mi>i</mi><mo>,</mo><mi>k</mi></mrow> </msub><mo>≠</mo><mn>0</mn></mrow></mfrac> <mi>n</mi> </munderover>
    <mrow>
      <msub><mi>p</mi> <mrow><mi>i</mi><mo>,</mo><mi>k</mi></mrow> </msub>
      <msub><mo form="prefix">log</mo> <mn>2</mn> </msub>
      <mrow>
        <mo>(</mo>
        <msub><mi>p</mi> <mrow><mi>i</mi><mo>,</mo><mi>k</mi></mrow> </msub>
        <mo>)</mo>
      </mrow>
    </mrow>
  </mrow>
</math>
        "#;

    let expected = r#"            n
Hᵢ =  -     ∑     pᵢ,ₖlog₂(pᵢ,ₖ)
          k = 1
         pᵢ,ₖ ≠ 0"#;
    let result = mathml_to_ascii(mathml, true).unwrap();
    assert_multiline_eq(result.trim(), expected.trim());
}

#[test]
fn test_rmse_formula() {
    let mathml = r#"
<math xmlns="http://www.w3.org/1998/Math/MathML" alttext="RMSE left-parenthesis bold upper X comma bold y comma h right-parenthesis equals StartRoot StartFraction 1 Over m EndFraction sigma-summation Underscript i equals 1 Overscript m Endscripts left-parenthesis h left-parenthesis bold x Superscript left-parenthesis i right-parenthesis Baseline right-parenthesis minus y Superscript left-parenthesis i right-parenthesis Baseline right-parenthesis squared EndRoot" display="block">
  <mrow>
    <mtext>RMSE</mtext>
    <mfenced separators="" open="(" close=")">
      <mi>𝐗</mi>
      <mo>,</mo>
      <mi>𝐲</mi>
      <mo>,</mo>
      <mi>h</mi>
    </mfenced>
    <mo>=</mo>
    <msqrt>
      <mrow>
        <mfrac><mn>1</mn> <mi>m</mi></mfrac>
        <msubsup><mo>∑</mo> <mrow><mi>i</mi><mo>=</mo><mn>1</mn></mrow> <mi>m</mi> </msubsup>
        <msup><mrow><mfenced separators="" open="(" close=")"><mi>h</mi><mfenced separators="" open="(" close=")"><msup><mrow><mi>𝐱</mi></mrow> <mfenced open="(" close=")"><mi>i</mi></mfenced> </msup></mfenced><mo>-</mo><msup><mrow><mi>y</mi></mrow> <mfenced open="(" close=")"><mi>i</mi></mfenced> </msup></mfenced></mrow> <mn>2</mn> </msup>
      </mrow>
    </msqrt>
  </mrow>
</math>
        "#;

    let expected = r#"                   ⟋───────────────────────────────
                   ╱ 1     m
RMSE(𝐗,𝐲,h) =  _  ╱  ─     ∑   (h(𝐱⁽ⁱ⁾) - y⁽ⁱ⁾)²
                \╱   m   i = 1"#;
    let result = mathml_to_ascii(mathml, true).unwrap();
    assert_multiline_eq(result.trim(), expected.trim());
}

#[test]
fn test_mroot_single_line() {
    let mathml = r#"
<math xmlns="http://www.w3.org/1998/Math/MathML">
    <mroot>
        <mn>8</mn>
        <mn>3</mn>
    </mroot>
</math>
        "#;

    let expected = "³√(8)";
    let result = mathml_to_ascii(mathml, true).unwrap();
    assert_eq!(result.trim(), expected);

    let mathml2 = r#"
<math xmlns="http://www.w3.org/1998/Math/MathML">
    <mroot>
        <mrow>
            <msup>
                <mi>x</mi>
                <mn>2</mn>
            </msup>
            <mo>+</mo>
            <mn>1</mn>
        </mrow>
        <mn>4</mn>
    </mroot>
</math>
        "#;

    let expected2 = "⁴√(x² + 1)";
    let result2 = mathml_to_ascii(mathml2, true).unwrap();
    assert_eq!(result2.trim(), expected2);

    let mathml3 = r#"
<math xmlns="http://www.w3.org/1998/Math/MathML">
    <mroot>
        <mi>a</mi>
        <mi>n</mi>
    </mroot>
</math>
        "#;

    let expected3 = "ⁿ√(a)";
    let result3 = mathml_to_ascii(mathml3, true).unwrap();
    assert_eq!(result3.trim(), expected3);
}

#[test]
fn test_mroot_multiline() {
    let mathml = r#"
<math xmlns="http://www.w3.org/1998/Math/MathML">
    <mroot>
        <mfrac>
            <mrow>
                <mi>x</mi>
                <mo>+</mo>
                <mi>y</mi>
            </mrow>
            <mrow>
                <mi>z</mi>
                <mo>-</mo>
                <mn>1</mn>
            </mrow>
        </mfrac>
        <mn>5</mn>
    </mroot>
</math>
        "#;

    let expected = r#"
       ⟋─────────
      ╱ x + y
 5_  ╱  ─────
   \╱   z - 1"#;
    let result = mathml_to_ascii(mathml, true).unwrap();
    assert_multiline_eq(result.trim_start(), expected.trim_start());
}

#[test]
fn test_transpose_symbol_inline() {
    let mathml = r#"
<math xmlns="http://www.w3.org/1998/Math/MathML">
    <mrow>
        <msup>
            <mi>X</mi>
            <mo>⊺</mo>
        </msup>
        <mi>X</mi>
    </mrow>
</math>
        "#;

    let expected = "XᵀX";
    let result = mathml_to_ascii(mathml, true).unwrap();
    assert_eq!(result.trim(), expected);
}

#[test]
fn test_gradient_descent_superscript_with_text() {
    let mathml = r#"
<math xmlns="http://www.w3.org/1998/Math/MathML">
    <msup>
        <mi>θ</mi>
        <mrow>
            <mo>(</mo>
            <mtext>next step</mtext>
            <mo>)</mo>
        </mrow>
    </msup>
    <mo>=</mo>
    <mi>θ</mi>
    <mo>-</mo>
    <mi>η</mi>
    <msub>
        <mo>∇</mo>
        <mi>θ</mi>
    </msub>
    <mo> </mo>
    <mtext>MSE</mtext>
    <mo>(</mo>
    <mi>θ</mi>
    <mo>)</mo>
</math>
        "#;

    let expected = "θ⁽ⁿᵉˣᵗ ˢᵗᵉᵖ⁾ = θ - η∇_θ MSE(θ)";
    let result = mathml_to_ascii(mathml, true).unwrap();
    assert_eq!(result.trim(), expected);
}
