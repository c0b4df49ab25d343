# eqn_eval

Evaluates a one-variable equation over a list of input values, such as
`x:[0,1,2,3]:sin(x)/((1+x)^2)-(2+x)^2+1.1^x`.

- `src/` is the verified library (Verus): reading the request, splitting the
  expression into tokens, grouping them by parentheses, and ordering the
  operations (one-argument functions first, then multiplication, division and
  exponentiation, then addition and subtraction, each from left to right). It
  produces a tree of operations whose leaves are numeric literals and the
  variable.
- `app/` is the program: it reads the request from standard input, computes
  the tree with floating-point numbers, and prints the result.
